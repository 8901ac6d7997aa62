use vstd::prelude::*;

verus! {

/// The TCP connection states as the kernel reports them in the `st` column
/// of `/proc/net/tcp`.
#[derive(Debug, Clone, Copy, PartialEq, Eq, Structural)]
pub enum TcpState {
    Established,
    SynSent,
    SynRecv,
    FinWait1,
    FinWait2,
    TimeWait,
    Close,
    CloseWait,
    LastAck,
    Listen,
    Closing,
}

impl TcpState {
    /// The numeric code of each state, as the kernel encodes it.
    pub open spec fn code(self) -> u32 {
        match self {
            TcpState::Established => 0x01,
            TcpState::SynSent => 0x02,
            TcpState::SynRecv => 0x03,
            TcpState::FinWait1 => 0x04,
            TcpState::FinWait2 => 0x05,
            TcpState::TimeWait => 0x06,
            TcpState::Close => 0x07,
            TcpState::CloseWait => 0x08,
            TcpState::LastAck => 0x09,
            TcpState::Listen => 0x0A,
            TcpState::Closing => 0x0B,
        }
    }

    /// Decodes a kernel state code; codes outside 0x01..=0x0B have no state.
    pub fn from_u32(value: u32) -> (r: Option<Self>)
        ensures
            r matches Some(s) ==> s.code() == value,
            r is None <==> !(0x01 <= value <= 0x0B),
    {
        match value {
            0x01 => Some(TcpState::Established),
            0x02 => Some(TcpState::SynSent),
            0x03 => Some(TcpState::SynRecv),
            0x04 => Some(TcpState::FinWait1),
            0x05 => Some(TcpState::FinWait2),
            0x06 => Some(TcpState::TimeWait),
            0x07 => Some(TcpState::Close),
            0x08 => Some(TcpState::CloseWait),
            0x09 => Some(TcpState::LastAck),
            0x0A => Some(TcpState::Listen),
            0x0B => Some(TcpState::Closing),
            _ => None,
        }
    }

    /// The conventional upper-case name of the state.
    pub fn as_str(&self) -> (r: &'static str)
        ensures
            r@ == self.spec_name(),
    {
        match self {
            TcpState::Established => "ESTABLISHED",
            TcpState::SynSent => "SYN_SENT",
            TcpState::SynRecv => "SYN_RECV",
            TcpState::FinWait1 => "FIN_WAIT1",
            TcpState::FinWait2 => "FIN_WAIT2",
            TcpState::TimeWait => "TIME_WAIT",
            TcpState::Close => "CLOSE",
            TcpState::CloseWait => "CLOSE_WAIT",
            TcpState::LastAck => "LAST_ACK",
            TcpState::Listen => "LISTEN",
            TcpState::Closing => "CLOSING",
        }
    }

    /// The name `as_str` returns for each state.
    pub open spec fn spec_name(self) -> Seq<char> {
        match self {
            TcpState::Established => "ESTABLISHED"@,
            TcpState::SynSent => "SYN_SENT"@,
            TcpState::SynRecv => "SYN_RECV"@,
            TcpState::FinWait1 => "FIN_WAIT1"@,
            TcpState::FinWait2 => "FIN_WAIT2"@,
            TcpState::TimeWait => "TIME_WAIT"@,
            TcpState::Close => "CLOSE"@,
            TcpState::CloseWait => "CLOSE_WAIT"@,
            TcpState::LastAck => "LAST_ACK"@,
            TcpState::Listen => "LISTEN"@,
            TcpState::Closing => "CLOSING"@,
        }
    }
}

} // verus!
