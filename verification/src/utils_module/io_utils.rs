use vstd::prelude::*;
use vstd::string::*;
use crate::model::network::{IfaceCounters, NetState};
use crate::model::network_packet::{IfaceCounters as PktCounters, PacketState};
use crate::model::counter_map::{seq_find, seq_insert, lemma_seq_find};
use crate::utils_module::parse_utils::{
    dec_chars, is_ws_char, lemma_dec_chars_val, lemma_fields_append_tok, lemma_fields_push_ws,
    lemma_fields_tokens_wf, lemma_split_char_append_tok, lemma_split_char_len,
    lemma_split_char_push_sep, lemma_split_char_tokens_no_sep, parse_u64, parse_u64_spec,
    print_u64, spec_fields, split_char, split_str, str_eq, str_fields, str_trim, spec_trim,
};

verus! {

/// Stored text that is not a well-formed snapshot.
#[derive(Debug, Clone, Copy, PartialEq, Eq, Structural)]
pub struct DecodeError;

/// Why a stored snapshot could not be used: the record is absent, its text
/// does not decode, or writing it back failed.
#[derive(Debug, Clone, Copy, PartialEq, Eq, Structural)]
pub enum StoreError {
    NotFound,
    DecodeError,
    IOError,
}

/// A key as the store can hold it: non-empty, free of whitespace.
pub open spec fn storable_key(k: Seq<char>) -> bool {
    k.len() > 0 && (forall|i: int| 0 <= i < k.len() ==> !is_ws_char(#[trigger] k[i]))
}

/// Free text as the store can hold it on one line: free of newlines.
pub open spec fn storable_text(t: Seq<char>) -> bool {
    forall|i: int| 0 <= i < t.len() ==> #[trigger] t[i] != '\n'
}

pub open spec fn entries_storable<V>(s: Seq<(Seq<char>, V)>) -> bool {
    forall|i: int| 0 <= i < s.len() ==> storable_key((#[trigger] s[i]).0)
}

/// The lines joined back into a file: each line followed by one newline.
pub open spec fn join_lines(lines: Seq<Seq<char>>) -> Seq<char>
    decreases lines.len(),
{
    if lines.len() == 0 {
        Seq::<char>::empty()
    } else {
        join_lines(lines.drop_last()) + lines.last() + seq!['\n']
    }
}

/// Splitting the joined lines gives the lines back, plus the one empty
/// piece after the final newline.
pub proof fn lemma_split_join(lines: Seq<Seq<char>>)
    requires
        forall|k: int, i: int|
            0 <= k < lines.len() && 0 <= i < lines[k].len() ==> #[trigger] lines[k][i] != '\n',
    ensures
        split_char(join_lines(lines), '\n') == lines.push(Seq::<char>::empty()),
    decreases lines.len(),
{
    if lines.len() == 0 {
        assert(join_lines(lines) =~= Seq::<char>::empty());
        assert(split_char(join_lines(lines), '\n') =~~= lines.push(Seq::<char>::empty()));
    } else {
        let l0 = lines.drop_last();
        let last = lines.last();
        assert(forall|k: int, i: int|
            0 <= k < l0.len() && 0 <= i < l0[k].len() ==> #[trigger] l0[k][i] != '\n') by {
            assert(forall|k: int| 0 <= k < l0.len() ==> #[trigger] l0[k] == lines[k]);
        }
        lemma_split_join(l0);
        assert(forall|i: int| 0 <= i < last.len() ==> #[trigger] last[i] != '\n') by {
            assert(lines[lines.len() - 1] == last);
        }
        lemma_split_char_append_tok(join_lines(l0), '\n', last);
        let sp0 = split_char(join_lines(l0), '\n');
        assert(sp0 == l0.push(Seq::<char>::empty()));
        assert(sp0.last() == Seq::<char>::empty());
        assert(sp0.last() + last =~= last);
        let mid = split_char(join_lines(l0) + last, '\n');
        assert(mid == sp0.update(sp0.len() - 1, sp0.last() + last));
        assert(mid =~~= l0.push(last));
        lemma_split_char_push_sep(join_lines(l0) + last, '\n');
        assert((join_lines(l0) + last).push('\n') =~= join_lines(lines));
        assert(split_char(join_lines(lines), '\n') =~~= lines.push(Seq::<char>::empty()));
    }
}

/// The timestamp line: the tag "t ", then the text to the end of the line.
pub open spec fn parse_ts_line(l: Seq<char>) -> Option<Seq<char>> {
    if l.len() >= 2 && l[0] == 't' && l[1] == ' ' {
        Some(l.skip(2))
    } else {
        None
    }
}

/// One per-interface line of a network snapshot: a tag field, the name, and
/// the two counters, space-separated.
pub open spec fn net_row_line(tag: char, name: Seq<char>, a: u64, b: u64) -> Seq<char> {
    seq![tag] + seq![' '] + name + seq![' '] + dec_chars(a as int) + seq![' '] + dec_chars(
        b as int,
    )
}

/// What one snapshot line holds: whether it is an interface row (rather
/// than a rollup row), the name, and the two counters.
pub open spec fn parse_net_row(l: Seq<char>) -> Option<(bool, Seq<char>, u64, u64)> {
    let fs = spec_fields(l);
    if fs.len() == 4 && (fs[0] == seq!['i'] || fs[0] == seq!['s']) && parse_u64_spec(fs[2])
        is Some && parse_u64_spec(fs[3]) is Some {
        Some((fs[0] == seq!['i'], fs[1], parse_u64_spec(fs[2]).unwrap(), parse_u64_spec(fs[3]).unwrap()))
    } else {
        None
    }
}

/// The two entry sequences the rows build up, row by row, or None on the
/// first malformed row.
pub open spec fn fold_net_rows(ls: Seq<Seq<char>>) -> Option<
    (Seq<(Seq<char>, IfaceCounters)>, Seq<(Seq<char>, IfaceCounters)>),
>
    decreases ls.len(),
{
    if ls.len() == 0 {
        Some(
            (
                Seq::<(Seq<char>, IfaceCounters)>::empty(),
                Seq::<(Seq<char>, IfaceCounters)>::empty(),
            ),
        )
    } else {
        match fold_net_rows(ls.drop_last()) {
            None => None,
            Some(p) => match parse_net_row(ls.last()) {
                None => None,
                Some(row) => if row.0 {
                    Some((seq_insert(p.0, row.1, IfaceCounters { rx: row.2, tx: row.3 }), p.1))
                } else {
                    Some((p.0, seq_insert(p.1, row.1, IfaceCounters { rx: row.2, tx: row.3 })))
                },
            },
        }
    }
}

/// Once a row has failed, the whole fold fails.
pub proof fn lemma_fold_net_rows_none(ls: Seq<Seq<char>>, i: int)
    requires
        0 <= i <= ls.len(),
        fold_net_rows(ls.take(i)) is None,
    ensures
        fold_net_rows(ls) is None,
    decreases ls.len() - i,
{
    if i < ls.len() {
        assert(ls.take(i + 1).drop_last() =~= ls.take(i));
        lemma_fold_net_rows_none(ls, i + 1);
    } else {
        assert(ls.take(i) =~= ls);
    }
}

/// The mathematical content of a network snapshot: what the store encodes
/// and what decoding yields.
pub struct NetStateModel {
    pub ifaces: Seq<(Seq<char>, IfaceCounters)>,
    pub statistics: Seq<(Seq<char>, IfaceCounters)>,
    pub updated_at: Seq<char>,
}

pub open spec fn net_model(st: NetState) -> NetStateModel {
    NetStateModel {
        ifaces: st.ifaces.entries_seq(),
        statistics: st.statistics.entries_seq(),
        updated_at: st.updated_at@,
    }
}

/// The lines of an encoded network snapshot: the header, the timestamp
/// line, the interface rows, the rollup rows.
pub open spec fn net_lines(m: NetStateModel) -> Seq<Seq<char>> {
    seq!["netstate"@, seq!['t', ' '] + m.updated_at] + m.ifaces.map_values(
        |e: (Seq<char>, IfaceCounters)| net_row_line('i', e.0, e.1.rx, e.1.tx),
    ) + m.statistics.map_values(
        |e: (Seq<char>, IfaceCounters)| net_row_line('s', e.0, e.1.rx, e.1.tx),
    )
}

pub open spec fn spec_encode_net(m: NetStateModel) -> Seq<char> {
    join_lines(net_lines(m))
}

/// The model a stored text decodes to, or None when it is not a
/// well-formed network snapshot.
pub open spec fn spec_decode_net(s: Seq<char>) -> Option<NetStateModel> {
    let toks = split_char(s, '\n');
    if toks.last() != Seq::<char>::empty() {
        None
    } else {
        let lines = toks.drop_last();
        if lines.len() < 2 || lines[0] != "netstate"@ {
            None
        } else {
            match parse_ts_line(lines[1]) {
                None => None,
                Some(ts) => match fold_net_rows(lines.skip(2)) {
                    None => None,
                    Some(p) => Some(
                        NetStateModel { ifaces: p.0, statistics: p.1, updated_at: ts },
                    ),
                },
            }
        }
    }
}

/// An encoded row parses back to exactly its parts.
pub proof fn lemma_parse_row_line(tag: char, name: Seq<char>, a: u64, b: u64)
    requires
        tag == 'i' || tag == 's',
        storable_key(name),
    ensures
        parse_net_row(net_row_line(tag, name, a, b)) == Some((tag == 'i', name, a, b)),
        forall|i: int|
            0 <= i < net_row_line(tag, name, a, b).len() ==> #[trigger] net_row_line(
                tag,
                name,
                a,
                b,
            )[i] != '\n',
{
    lemma_dec_chars_val(a as int);
    lemma_dec_chars_val(b as int);
    let da = dec_chars(a as int);
    let db = dec_chars(b as int);
    let s0 = seq![tag];
    let s1 = s0 + seq![' '];
    let s2 = s1 + name;
    let s3 = s2 + seq![' '];
    let s4 = s3 + da;
    let s5 = s4 + seq![' '];
    let s6 = s5 + db;
    assert(net_row_line(tag, name, a, b) =~= s6);

    assert(Seq::<char>::empty() + s0 =~= s0);
    lemma_fields_append_tok(Seq::<char>::empty(), s0);
    assert(spec_fields(Seq::<char>::empty()) =~~= Seq::<Seq<char>>::empty());
    assert(spec_fields(s0) =~~= seq![s0]);

    assert(s1 =~= s0.push(' '));
    lemma_fields_push_ws(s0, ' ');
    assert(s1.last() == ' ');

    lemma_fields_append_tok(s1, name);
    assert(spec_fields(s2) =~~= seq![s0, name]);

    assert(s3 =~= s2.push(' '));
    lemma_fields_push_ws(s2, ' ');
    assert(s3.last() == ' ');

    lemma_fields_append_tok(s3, da);
    assert(spec_fields(s4) =~~= seq![s0, name, da]);

    assert(s5 =~= s4.push(' '));
    lemma_fields_push_ws(s4, ' ');
    assert(s5.last() == ' ');

    lemma_fields_append_tok(s5, db);
    assert(spec_fields(s6) =~~= seq![s0, name, da, db]);

    let fs = spec_fields(s6);
    assert(fs.len() == 4);
    assert(fs[0] == s0 && fs[1] == name && fs[2] == da && fs[3] == db);
    if tag == 'i' {
        assert(fs[0] =~= seq!['i']);
        assert(fs[0] != seq!['s']) by {
            assert(seq!['i'][0] == 'i' && seq!['s'][0] == 's');
        }
    } else {
        assert(fs[0] =~= seq!['s']);
        assert(fs[0] != seq!['i']) by {
            assert(seq!['s'][0] == 's' && seq!['i'][0] == 'i');
        }
    }
    assert(parse_u64_spec(da) == Some(a));
    assert(parse_u64_spec(db) == Some(b));

    assert forall|i: int| 0 <= i < s6.len() implies #[trigger] s6[i] != '\n' by {
        if i == 0 {
        } else if i < s1.len() {
        } else if i < s2.len() {
            assert(s6[i] == name[i - s1.len()]);
        } else if i < s3.len() {
        } else if i < s4.len() {
            assert(s6[i] == da[i - s3.len()]);
        } else if i < s5.len() {
        } else {
            assert(s6[i] == db[i - s5.len()]);
        }
    }
}

/// Inserting a key that is not yet present appends the pair.
pub proof fn lemma_insert_fresh<V>(s: Seq<(Seq<char>, V)>, k: Seq<char>, v: V)
    requires
        forall|j: int| 0 <= j < s.len() ==> (#[trigger] s[j]).0 != k,
    ensures
        seq_insert(s, k, v) == s.push((k, v)),
{
    lemma_seq_find(s, k);
    if seq_find(s, k) < s.len() {
        assert(s[seq_find(s, k)].0 == k);
    }
}

/// Folding the encoded interface rows after some already-folded lines
/// appends exactly those entries to the first map.
proof fn lemma_fold_iface_rows(
    base: Seq<Seq<char>>,
    fi: Seq<(Seq<char>, IfaceCounters)>,
    fs: Seq<(Seq<char>, IfaceCounters)>,
    entries: Seq<(Seq<char>, IfaceCounters)>,
)
    requires
        fold_net_rows(base) == Some((fi, fs)),
        entries_storable(entries),
        forall|i: int, j: int|
            0 <= i < j < entries.len() ==> (#[trigger] entries[i]).0 != (#[trigger] entries[j]).0,
        forall|i: int, j: int|
            0 <= i < fi.len() && 0 <= j < entries.len() ==> (#[trigger] fi[i]).0 != (
            #[trigger] entries[j]).0,
    ensures
        fold_net_rows(
            base + entries.map_values(
                |e: (Seq<char>, IfaceCounters)| net_row_line('i', e.0, e.1.rx, e.1.tx),
            ),
        ) == Some((fi + entries, fs)),
    decreases entries.len(),
{
    let rows = entries.map_values(
        |e: (Seq<char>, IfaceCounters)| net_row_line('i', e.0, e.1.rx, e.1.tx),
    );
    if entries.len() == 0 {
        assert(base + rows =~= base);
        assert(fi + entries =~= fi);
    } else {
        let e0 = entries.drop_last();
        let last = entries.last();
        assert(entries[entries.len() - 1] == last);
        assert(forall|j: int| 0 <= j < e0.len() ==> #[trigger] e0[j] == entries[j]);
        let rows0 = e0.map_values(
            |e: (Seq<char>, IfaceCounters)| net_row_line('i', e.0, e.1.rx, e.1.tx),
        );
        lemma_fold_iface_rows(base, fi, fs, e0);
        let whole = base + rows;
        assert(whole.drop_last() =~= base + rows0);
        assert(whole.last() == net_row_line('i', last.0, last.1.rx, last.1.tx)) by {
            assert(rows[entries.len() - 1] == net_row_line('i', last.0, last.1.rx, last.1.tx));
        }
        assert(storable_key(last.0));
        lemma_parse_row_line('i', last.0, last.1.rx, last.1.tx);
        assert(parse_net_row(whole.last()) == Some((true, last.0, last.1.rx, last.1.tx)));
        let mid = fi + e0;
        assert(forall|j: int| 0 <= j < mid.len() ==> (#[trigger] mid[j]).0 != last.0);
        lemma_insert_fresh(mid, last.0, IfaceCounters { rx: last.1.rx, tx: last.1.tx });
        assert((IfaceCounters { rx: last.1.rx, tx: last.1.tx }) == last.1);
        assert(mid.push((last.0, last.1)) =~= fi + entries);
        assert(fold_net_rows(whole) == Some((fi + entries, fs)));
    }
}

/// Folding the encoded rollup rows after some already-folded lines appends
/// exactly those entries to the second map.
proof fn lemma_fold_stat_rows(
    base: Seq<Seq<char>>,
    fi: Seq<(Seq<char>, IfaceCounters)>,
    fs: Seq<(Seq<char>, IfaceCounters)>,
    entries: Seq<(Seq<char>, IfaceCounters)>,
)
    requires
        fold_net_rows(base) == Some((fi, fs)),
        entries_storable(entries),
        forall|i: int, j: int|
            0 <= i < j < entries.len() ==> (#[trigger] entries[i]).0 != (#[trigger] entries[j]).0,
        forall|i: int, j: int|
            0 <= i < fs.len() && 0 <= j < entries.len() ==> (#[trigger] fs[i]).0 != (
            #[trigger] entries[j]).0,
    ensures
        fold_net_rows(
            base + entries.map_values(
                |e: (Seq<char>, IfaceCounters)| net_row_line('s', e.0, e.1.rx, e.1.tx),
            ),
        ) == Some((fi, fs + entries)),
    decreases entries.len(),
{
    let rows = entries.map_values(
        |e: (Seq<char>, IfaceCounters)| net_row_line('s', e.0, e.1.rx, e.1.tx),
    );
    if entries.len() == 0 {
        assert(base + rows =~= base);
        assert(fs + entries =~= fs);
    } else {
        let e0 = entries.drop_last();
        let last = entries.last();
        assert(entries[entries.len() - 1] == last);
        assert(forall|j: int| 0 <= j < e0.len() ==> #[trigger] e0[j] == entries[j]);
        let rows0 = e0.map_values(
            |e: (Seq<char>, IfaceCounters)| net_row_line('s', e.0, e.1.rx, e.1.tx),
        );
        lemma_fold_stat_rows(base, fi, fs, e0);
        let whole = base + rows;
        assert(whole.drop_last() =~= base + rows0);
        assert(whole.last() == net_row_line('s', last.0, last.1.rx, last.1.tx)) by {
            assert(rows[entries.len() - 1] == net_row_line('s', last.0, last.1.rx, last.1.tx));
        }
        assert(storable_key(last.0));
        lemma_parse_row_line('s', last.0, last.1.rx, last.1.tx);
        assert(parse_net_row(whole.last()) == Some((false, last.0, last.1.rx, last.1.tx)));
        let mid = fs + e0;
        assert(forall|j: int| 0 <= j < mid.len() ==> (#[trigger] mid[j]).0 != last.0);
        lemma_insert_fresh(mid, last.0, IfaceCounters { rx: last.1.rx, tx: last.1.tx });
        assert((IfaceCounters { rx: last.1.rx, tx: last.1.tx }) == last.1);
        assert(mid.push((last.0, last.1)) =~= fs + entries);
        assert(fold_net_rows(whole) == Some((fi, fs + entries)));
    }
}

/// One per-interface line of a packet snapshot: a tag field, the name, and
/// the four counters, space-separated.
pub open spec fn pkt_row_line(name: Seq<char>, c: PktCounters) -> Seq<char> {
    seq!['i'] + seq![' '] + name + seq![' '] + dec_chars(c.rx_dropped as int) + seq![' ']
        + dec_chars(c.tx_dropped as int) + seq![' '] + dec_chars(c.rx_errors as int) + seq![' ']
        + dec_chars(c.tx_errors as int)
}

/// What one packet snapshot line holds: the name and the four counters.
pub open spec fn parse_pkt_row(l: Seq<char>) -> Option<(Seq<char>, PktCounters)> {
    let fs = spec_fields(l);
    if fs.len() == 6 && fs[0] == seq!['i'] && parse_u64_spec(fs[2]) is Some && parse_u64_spec(
        fs[3],
    ) is Some && parse_u64_spec(fs[4]) is Some && parse_u64_spec(fs[5]) is Some {
        Some(
            (
                fs[1],
                PktCounters {
                    rx_dropped: parse_u64_spec(fs[2]).unwrap(),
                    tx_dropped: parse_u64_spec(fs[3]).unwrap(),
                    rx_errors: parse_u64_spec(fs[4]).unwrap(),
                    tx_errors: parse_u64_spec(fs[5]).unwrap(),
                },
            ),
        )
    } else {
        None
    }
}

/// The entry sequence the packet rows build up, or None on the first
/// malformed row.
pub open spec fn fold_pkt_rows(ls: Seq<Seq<char>>) -> Option<Seq<(Seq<char>, PktCounters)>>
    decreases ls.len(),
{
    if ls.len() == 0 {
        Some(Seq::<(Seq<char>, PktCounters)>::empty())
    } else {
        match fold_pkt_rows(ls.drop_last()) {
            None => None,
            Some(p) => match parse_pkt_row(ls.last()) {
                None => None,
                Some(row) => Some(seq_insert(p, row.0, row.1)),
            },
        }
    }
}

/// Once a packet row has failed, the whole fold fails.
pub proof fn lemma_fold_pkt_rows_none(ls: Seq<Seq<char>>, i: int)
    requires
        0 <= i <= ls.len(),
        fold_pkt_rows(ls.take(i)) is None,
    ensures
        fold_pkt_rows(ls) is None,
    decreases ls.len() - i,
{
    if i < ls.len() {
        assert(ls.take(i + 1).drop_last() =~= ls.take(i));
        lemma_fold_pkt_rows_none(ls, i + 1);
    } else {
        assert(ls.take(i) =~= ls);
    }
}

/// The mathematical content of a packet snapshot.
pub struct PacketStateModel {
    pub ifaces: Seq<(Seq<char>, PktCounters)>,
    pub updated_at: Seq<char>,
}

pub open spec fn pkt_model(st: PacketState) -> PacketStateModel {
    PacketStateModel { ifaces: st.ifaces.entries_seq(), updated_at: st.updated_at@ }
}

/// The lines of an encoded packet snapshot: the header, the timestamp
/// line, the interface rows.
pub open spec fn pkt_lines(m: PacketStateModel) -> Seq<Seq<char>> {
    seq!["packetstate"@, seq!['t', ' '] + m.updated_at] + m.ifaces.map_values(
        |e: (Seq<char>, PktCounters)| pkt_row_line(e.0, e.1),
    )
}

pub open spec fn spec_encode_pkt(m: PacketStateModel) -> Seq<char> {
    join_lines(pkt_lines(m))
}

/// The model a stored text decodes to, or None when it is not a
/// well-formed packet snapshot.
pub open spec fn spec_decode_pkt(s: Seq<char>) -> Option<PacketStateModel> {
    let toks = split_char(s, '\n');
    if toks.last() != Seq::<char>::empty() {
        None
    } else {
        let lines = toks.drop_last();
        if lines.len() < 2 || lines[0] != "packetstate"@ {
            None
        } else {
            match parse_ts_line(lines[1]) {
                None => None,
                Some(ts) => match fold_pkt_rows(lines.skip(2)) {
                    None => None,
                    Some(p) => Some(PacketStateModel { ifaces: p, updated_at: ts }),
                },
            }
        }
    }
}

/// An encoded packet row parses back to exactly its parts.
pub proof fn lemma_parse_pkt_row_line(name: Seq<char>, c: PktCounters)
    requires
        storable_key(name),
    ensures
        parse_pkt_row(pkt_row_line(name, c)) == Some((name, c)),
        forall|i: int|
            0 <= i < pkt_row_line(name, c).len() ==> #[trigger] pkt_row_line(name, c)[i] != '\n',
{
    lemma_dec_chars_val(c.rx_dropped as int);
    lemma_dec_chars_val(c.tx_dropped as int);
    lemma_dec_chars_val(c.rx_errors as int);
    lemma_dec_chars_val(c.tx_errors as int);
    let d1 = dec_chars(c.rx_dropped as int);
    let d2 = dec_chars(c.tx_dropped as int);
    let d3 = dec_chars(c.rx_errors as int);
    let d4 = dec_chars(c.tx_errors as int);
    let s0 = seq!['i'];
    let s1 = s0 + seq![' '];
    let s2 = s1 + name;
    let s3 = s2 + seq![' '];
    let s4 = s3 + d1;
    let s5 = s4 + seq![' '];
    let s6 = s5 + d2;
    let s7 = s6 + seq![' '];
    let s8 = s7 + d3;
    let s9 = s8 + seq![' '];
    let s10 = s9 + d4;
    assert(pkt_row_line(name, c) =~= s10);

    assert(Seq::<char>::empty() + s0 =~= s0);
    lemma_fields_append_tok(Seq::<char>::empty(), s0);
    assert(spec_fields(Seq::<char>::empty()) =~~= Seq::<Seq<char>>::empty());
    assert(spec_fields(s0) =~~= seq![s0]);

    assert(s1 =~= s0.push(' '));
    lemma_fields_push_ws(s0, ' ');
    assert(s1.last() == ' ');
    lemma_fields_append_tok(s1, name);
    assert(spec_fields(s2) =~~= seq![s0, name]);

    assert(s3 =~= s2.push(' '));
    lemma_fields_push_ws(s2, ' ');
    assert(s3.last() == ' ');
    lemma_fields_append_tok(s3, d1);
    assert(spec_fields(s4) =~~= seq![s0, name, d1]);

    assert(s5 =~= s4.push(' '));
    lemma_fields_push_ws(s4, ' ');
    assert(s5.last() == ' ');
    lemma_fields_append_tok(s5, d2);
    assert(spec_fields(s6) =~~= seq![s0, name, d1, d2]);

    assert(s7 =~= s6.push(' '));
    lemma_fields_push_ws(s6, ' ');
    assert(s7.last() == ' ');
    lemma_fields_append_tok(s7, d3);
    assert(spec_fields(s8) =~~= seq![s0, name, d1, d2, d3]);

    assert(s9 =~= s8.push(' '));
    lemma_fields_push_ws(s8, ' ');
    assert(s9.last() == ' ');
    lemma_fields_append_tok(s9, d4);
    assert(spec_fields(s10) =~~= seq![s0, name, d1, d2, d3, d4]);

    let fs = spec_fields(s10);
    assert(fs.len() == 6);
    assert(fs[0] == s0 && fs[1] == name && fs[2] == d1 && fs[3] == d2 && fs[4] == d3 && fs[5]
        == d4);
    assert(parse_u64_spec(d1) == Some(c.rx_dropped));
    assert(parse_u64_spec(d2) == Some(c.tx_dropped));
    assert(parse_u64_spec(d3) == Some(c.rx_errors));
    assert(parse_u64_spec(d4) == Some(c.tx_errors));
    assert((PktCounters {
        rx_dropped: c.rx_dropped,
        tx_dropped: c.tx_dropped,
        rx_errors: c.rx_errors,
        tx_errors: c.tx_errors,
    }) == c);

    assert forall|i: int| 0 <= i < s10.len() implies #[trigger] s10[i] != '\n' by {
        if i == 0 {
        } else if i < s1.len() {
        } else if i < s2.len() {
            assert(s10[i] == name[i - s1.len()]);
        } else if i < s3.len() {
        } else if i < s4.len() {
            assert(s10[i] == d1[i - s3.len()]);
        } else if i < s5.len() {
        } else if i < s6.len() {
            assert(s10[i] == d2[i - s5.len()]);
        } else if i < s7.len() {
        } else if i < s8.len() {
            assert(s10[i] == d3[i - s7.len()]);
        } else if i < s9.len() {
        } else {
            assert(s10[i] == d4[i - s9.len()]);
        }
    }
}

/// Folding the encoded packet rows after some already-folded lines appends
/// exactly those entries.
proof fn lemma_fold_pkt_row_entries(
    base: Seq<Seq<char>>,
    acc: Seq<(Seq<char>, PktCounters)>,
    entries: Seq<(Seq<char>, PktCounters)>,
)
    requires
        fold_pkt_rows(base) == Some(acc),
        entries_storable(entries),
        forall|i: int, j: int|
            0 <= i < j < entries.len() ==> (#[trigger] entries[i]).0 != (#[trigger] entries[j]).0,
        forall|i: int, j: int|
            0 <= i < acc.len() && 0 <= j < entries.len() ==> (#[trigger] acc[i]).0 != (
            #[trigger] entries[j]).0,
    ensures
        fold_pkt_rows(
            base + entries.map_values(|e: (Seq<char>, PktCounters)| pkt_row_line(e.0, e.1)),
        ) == Some(acc + entries),
    decreases entries.len(),
{
    let rows = entries.map_values(|e: (Seq<char>, PktCounters)| pkt_row_line(e.0, e.1));
    if entries.len() == 0 {
        assert(base + rows =~= base);
        assert(acc + entries =~= acc);
    } else {
        let e0 = entries.drop_last();
        let last = entries.last();
        assert(entries[entries.len() - 1] == last);
        assert(forall|j: int| 0 <= j < e0.len() ==> #[trigger] e0[j] == entries[j]);
        let rows0 = e0.map_values(|e: (Seq<char>, PktCounters)| pkt_row_line(e.0, e.1));
        lemma_fold_pkt_row_entries(base, acc, e0);
        let whole = base + rows;
        assert(whole.drop_last() =~= base + rows0);
        assert(whole.last() == pkt_row_line(last.0, last.1)) by {
            assert(rows[entries.len() - 1] == pkt_row_line(last.0, last.1));
        }
        assert(storable_key(last.0));
        lemma_parse_pkt_row_line(last.0, last.1);
        let mid = acc + e0;
        assert(forall|j: int| 0 <= j < mid.len() ==> (#[trigger] mid[j]).0 != last.0);
        lemma_insert_fresh(mid, last.0, last.1);
        assert(mid.push((last.0, last.1)) =~= acc + entries);
        assert(fold_pkt_rows(whole) == Some(acc + entries));
    }
}

/// A snapshot kind the store can persist: it encodes to text, decodes
/// back, and a decoded value is determined by the text.
pub trait StorableSnapshot: Sized {
    /// The value is fit for the store: keys and free text stay on their
    /// lines and keys are unique.
    spec fn wf_store(&self) -> bool;

    /// The text the store holds for this value.
    spec fn spec_encode(&self) -> Seq<char>;

    /// The text decodes to this value.
    spec fn spec_decodes(s: Seq<char>, v: &Self) -> bool;

    /// The text decodes to some value.
    spec fn spec_decodable(s: Seq<char>) -> bool;

    /// The two values are the same snapshot: equal entry by entry and in
    /// their timestamp text.
    spec fn same_snapshot(a: &Self, b: &Self) -> bool;

    /// Reads a snapshot back from stored text; exactly the decodable texts
    /// yield one.
    fn decode(s: &str) -> (r: Result<Self, DecodeError>)
        ensures
            r matches Ok(v) ==> Self::spec_decodes(s@, &v) && v.wf_store(),
            r is Ok <==> Self::spec_decodable(s@),
    ;

    /// Writes the snapshot out as text.
    fn encode(&self) -> (r: String)
        requires
            self.wf_store(),
        ensures
            r@ == self.spec_encode(),
    ;

    /// What a snapshot writes, it reads back: its own text decodes, and to
    /// it.
    proof fn lemma_round_trip(&self)
        requires
            self.wf_store(),
        ensures
            Self::spec_decodable(self.spec_encode()),
            Self::spec_decodes(self.spec_encode(), self),
    ;

    /// A text decodes to at most one snapshot.
    proof fn lemma_decodes_deterministic(s: Seq<char>, a: &Self, b: &Self)
        requires
            Self::spec_decodes(s, a),
            Self::spec_decodes(s, b),
        ensures
            Self::same_snapshot(a, b),
    ;
}

impl StorableSnapshot for NetState {
    open spec fn wf_store(&self) -> bool {
        &&& self.wf()
        &&& entries_storable(self.ifaces.entries_seq())
        &&& entries_storable(self.statistics.entries_seq())
        &&& storable_text(self.updated_at@)
    }

    open spec fn spec_encode(&self) -> Seq<char> {
        spec_encode_net(net_model(*self))
    }

    open spec fn spec_decodes(s: Seq<char>, v: &Self) -> bool {
        spec_decode_net(s) == Some(net_model(*v))
    }

    open spec fn spec_decodable(s: Seq<char>) -> bool {
        spec_decode_net(s) is Some
    }

    open spec fn same_snapshot(a: &Self, b: &Self) -> bool {
        net_model(*a) == net_model(*b)
    }

    fn decode(s: &str) -> (r: Result<Self, DecodeError>) {
        let toks: Vec<String> = split_str(s, '\n');
        proof {
            lemma_split_char_len(s@, '\n');
            lemma_split_char_tokens_no_sep(s@, '\n');
        }
        let ghost sp = split_char(s@, '\n');
        let n: usize = toks.len();
        assert(forall|j: int| 0 <= j < n ==> #[trigger] toks@[j]@ == sp[j]);
        if toks[n - 1].as_str().unicode_len() != 0 {
            proof {
                assert(sp.last() != Seq::<char>::empty());
            }
            return Err(DecodeError);
        }
        assert(sp.last() =~= Seq::<char>::empty());
        let ghost lines = sp.drop_last();
        if n - 1 < 2 {
            return Err(DecodeError);
        }
        if !str_eq(toks[0].as_str(), "netstate") {
            assert(lines[0] != "netstate"@);
            return Err(DecodeError);
        }
        assert(lines[0] == "netstate"@);
        let tsl: &String = &toks[1];
        let tll: usize = tsl.as_str().unicode_len();
        if !(tll >= 2 && tsl.as_str().get_char(0) == 't' && tsl.as_str().get_char(1) == ' ') {
            assert(parse_ts_line(lines[1]) is None);
            return Err(DecodeError);
        }
        let ts: String = String::from_str(tsl.as_str().substring_char(2, tll));
        assert(ts@ =~= lines[1].skip(2));
        assert(parse_ts_line(lines[1]) == Some(ts@));
        assert(storable_text(ts@)) by {
            assert(forall|i: int| 0 <= i < lines[1].len() ==> #[trigger] lines[1][i] != '\n');
            assert(forall|i: int| 0 <= i < ts@.len() ==> ts@[i] == #[trigger] lines[1][i + 2]);
        }
        let ghost tsv = ts@;
        let mut st: NetState = NetState::new(ts);
        let ghost rows = lines.skip(2);
        let mut i: usize = 2;
        while i < n - 1
            invariant
                2 <= i <= n - 1,
                n == toks@.len(),
                n >= 3,
                sp == split_char(s@, '\n'),
                n == sp.len(),
                lines == sp.drop_last(),
                rows == lines.skip(2),
                forall|j: int| 0 <= j < n ==> #[trigger] toks@[j]@ == sp[j],
                forall|k: int, j: int|
                    0 <= k < sp.len() && 0 <= j < sp[k].len() ==> #[trigger] sp[k][j] != '\n',
                st.wf(),
                st.updated_at@ == tsv,
                storable_text(tsv),
                entries_storable(st.ifaces.entries_seq()),
                entries_storable(st.statistics.entries_seq()),
                fold_net_rows(rows.take(i - 2)) == Some(
                    (st.ifaces.entries_seq(), st.statistics.entries_seq()),
                ),
            decreases n - 1 - i,
        {
            let line: &String = &toks[i];
            assert(line@ == sp[i as int] && sp[i as int] == lines[i as int] && lines[i as int]
                == rows[i - 2]);
            let fs: Vec<String> = str_fields(line.as_str());
            assert(fs@.map_values(|t: String| t@) == spec_fields(line@));
            assert(rows.take(i - 1).drop_last() =~= rows.take(i - 2));
            assert(rows.take(i - 1).last() == rows[i - 2]);
            proof {
                lemma_fields_tokens_wf(line@);
            }
            if fs.len() != 4 {
                proof {
                    assert(parse_net_row(rows[i - 2]) is None);
                    assert(fold_net_rows(rows.take(i - 1)) is None);
                    lemma_fold_net_rows_none(rows, i - 1);
                }
                return Err(DecodeError);
            }
            let tag: &String = &fs[0];
            let tag_is_i: bool = tag.as_str().unicode_len() == 1 && tag.as_str().get_char(0)
                == 'i';
            let tag_is_s: bool = tag.as_str().unicode_len() == 1 && tag.as_str().get_char(0)
                == 's';
            proof {
                assert(fs@[0]@ == spec_fields(line@)[0]);
                if tag_is_i {
                    assert(fs@[0]@ =~= seq!['i']);
                } else {
                    if fs@[0]@ == seq!['i'] {
                        assert(fs@[0]@.len() == 1 && fs@[0]@[0] == 'i');
                    }
                }
                if tag_is_s {
                    assert(fs@[0]@ =~= seq!['s']);
                } else {
                    if fs@[0]@ == seq!['s'] {
                        assert(fs@[0]@.len() == 1 && fs@[0]@[0] == 's');
                    }
                }
            }
            if !(tag_is_i || tag_is_s) {
                proof {
                    assert(parse_net_row(rows[i - 2]) is None);
                    assert(fold_net_rows(rows.take(i - 1)) is None);
                    lemma_fold_net_rows_none(rows, i - 1);
                }
                return Err(DecodeError);
            }
            let a: u64 = match parse_u64(fs[2].as_str()) {
                Some(v) => v,
                None => {
                    proof {
                        assert(parse_net_row(rows[i - 2]) is None);
                        assert(fold_net_rows(rows.take(i - 1)) is None);
                        lemma_fold_net_rows_none(rows, i - 1);
                    }
                    return Err(DecodeError);
                },
            };
            let b: u64 = match parse_u64(fs[3].as_str()) {
                Some(v) => v,
                None => {
                    proof {
                        assert(parse_net_row(rows[i - 2]) is None);
                        assert(fold_net_rows(rows.take(i - 1)) is None);
                        lemma_fold_net_rows_none(rows, i - 1);
                    }
                    return Err(DecodeError);
                },
            };
            let name: String = fs[1].clone();
            assert(name@ == spec_fields(line@)[1]);
            assert(parse_net_row(rows[i - 2]) == Some((tag_is_i, name@, a, b)));
            assert(storable_key(name@));
            let ghost if0 = st.ifaces.entries_seq();
            let ghost st0 = st.statistics.entries_seq();
            if tag_is_i {
                st.add_iface(name, a, b);
                proof {
                    lemma_storable_insert(if0, name@, IfaceCounters { rx: a, tx: b });
                }
            } else {
                st.add_statistics(name, a, b);
                proof {
                    lemma_storable_insert(st0, name@, IfaceCounters { rx: a, tx: b });
                }
            }
            i = i + 1;
        }
        proof {
            assert(rows.take(n - 1 - 2) =~= rows);
            assert(spec_decode_net(s@) == Some(net_model(st)));
        }
        Ok(st)
    }

    fn encode(&self) -> (r: String) {
        let ghost m = net_model(*self);
        let mut out: String = String::new();
        out.append("netstate");
        out.push('\n');
        let ghost done0 = seq!["netstate"@];
        assert(out@ =~= join_lines(done0)) by {
            assert(done0.len() == 1);
            assert(done0.last() == "netstate"@);
            assert(done0.drop_last() =~= Seq::<Seq<char>>::empty());
            assert(join_lines(Seq::<Seq<char>>::empty()) == Seq::<char>::empty());
            assert(join_lines(done0) == Seq::<char>::empty() + "netstate"@ + seq!['\n']);
        }
        out.push('t');
        out.push(' ');
        out.append(self.updated_at.as_str());
        out.push('\n');
        let ghost done1 = done0.push(seq!['t', ' '] + m.updated_at);
        assert(out@ =~= join_lines(done1)) by {
            assert(done1.drop_last() =~= done0);
            assert(done1.last() =~= seq!['t', ' '] + m.updated_at);
        }

        let n1: usize = self.ifaces.len();
        let mut i: usize = 0;
        while i < n1
            invariant
                0 <= i <= n1,
                n1 == m.ifaces.len(),
                m == net_model(*self),
                done1 == seq!["netstate"@].push(seq!['t', ' '] + m.updated_at),
                out@ == join_lines(
                    done1 + m.ifaces.take(i as int).map_values(
                        |e: (Seq<char>, IfaceCounters)| net_row_line('i', e.0, e.1.rx, e.1.tx),
                    ),
                ),
            decreases n1 - i,
        {
            let (name, c) = self.ifaces.entry_at(i);
            let nm: String = name.clone();
            out.push('i');
            out.push(' ');
            out.append(nm.as_str());
            out.push(' ');
            let da: String = print_u64(c.rx);
            out.append(da.as_str());
            out.push(' ');
            let db: String = print_u64(c.tx);
            out.append(db.as_str());
            out.push('\n');
            proof {
                let e = m.ifaces[i as int];
                let row = net_row_line('i', e.0, e.1.rx, e.1.tx);
                let prev = done1 + m.ifaces.take(i as int).map_values(
                    |ee: (Seq<char>, IfaceCounters)| net_row_line('i', ee.0, ee.1.rx, ee.1.tx),
                );
                let next = done1 + m.ifaces.take(i + 1).map_values(
                    |ee: (Seq<char>, IfaceCounters)| net_row_line('i', ee.0, ee.1.rx, ee.1.tx),
                );
                assert(next.drop_last() =~~= prev);
                assert(next.last() == m.ifaces.take(i + 1).map_values(
                    |ee: (Seq<char>, IfaceCounters)| net_row_line('i', ee.0, ee.1.rx, ee.1.tx),
                )[i as int]);
                assert(next.last() == row);
                assert(out@ =~= join_lines(prev) + row + seq!['\n']);
                assert(out@ =~= join_lines(next));
            }
            i = i + 1;
        }
        assert(m.ifaces.take(n1 as int) =~= m.ifaces);
        let ghost done2 = done1 + m.ifaces.map_values(
            |e: (Seq<char>, IfaceCounters)| net_row_line('i', e.0, e.1.rx, e.1.tx),
        );
        assert(out@ == join_lines(done2));

        let n2: usize = self.statistics.len();
        let mut j: usize = 0;
        while j < n2
            invariant
                0 <= j <= n2,
                n2 == m.statistics.len(),
                m == net_model(*self),
                done2 == seq!["netstate"@].push(seq!['t', ' '] + m.updated_at) + m.ifaces.map_values(
                    |e: (Seq<char>, IfaceCounters)| net_row_line('i', e.0, e.1.rx, e.1.tx),
                ),
                out@ == join_lines(
                    done2 + m.statistics.take(j as int).map_values(
                        |e: (Seq<char>, IfaceCounters)| net_row_line('s', e.0, e.1.rx, e.1.tx),
                    ),
                ),
            decreases n2 - j,
        {
            let (name, c) = self.statistics.entry_at(j);
            let nm: String = name.clone();
            out.push('s');
            out.push(' ');
            out.append(nm.as_str());
            out.push(' ');
            let da: String = print_u64(c.rx);
            out.append(da.as_str());
            out.push(' ');
            let db: String = print_u64(c.tx);
            out.append(db.as_str());
            out.push('\n');
            proof {
                let e = m.statistics[j as int];
                let row = net_row_line('s', e.0, e.1.rx, e.1.tx);
                let prev = done2 + m.statistics.take(j as int).map_values(
                    |ee: (Seq<char>, IfaceCounters)| net_row_line('s', ee.0, ee.1.rx, ee.1.tx),
                );
                let next = done2 + m.statistics.take(j + 1).map_values(
                    |ee: (Seq<char>, IfaceCounters)| net_row_line('s', ee.0, ee.1.rx, ee.1.tx),
                );
                assert(next.drop_last() =~~= prev);
                assert(next.last() == m.statistics.take(j + 1).map_values(
                    |ee: (Seq<char>, IfaceCounters)| net_row_line('s', ee.0, ee.1.rx, ee.1.tx),
                )[j as int]);
                assert(next.last() == row);
                assert(out@ =~= join_lines(prev) + row + seq!['\n']);
                assert(out@ =~= join_lines(next));
            }
            j = j + 1;
        }
        assert(m.statistics.take(n2 as int) =~= m.statistics);
        proof {
            let done3 = done2 + m.statistics.map_values(
                |e: (Seq<char>, IfaceCounters)| net_row_line('s', e.0, e.1.rx, e.1.tx),
            );
            assert(done3 =~~= net_lines(m));
        }
        out
    }

    proof fn lemma_round_trip(&self) {
        let m = net_model(*self);
        let lines = net_lines(m);
        let irows = m.ifaces.map_values(
            |e: (Seq<char>, IfaceCounters)| net_row_line('i', e.0, e.1.rx, e.1.tx),
        );
        let srows = m.statistics.map_values(
            |e: (Seq<char>, IfaceCounters)| net_row_line('s', e.0, e.1.rx, e.1.tx),
        );
        reveal_strlit("netstate");
        assert(lines[0] == "netstate"@);
        assert(lines[1] == seq!['t', ' '] + m.updated_at);
        assert forall|k: int, i: int|
            0 <= k < lines.len() && 0 <= i < lines[k].len() implies #[trigger] lines[k][i]
            != '\n' by {
            if k == 0 {
                assert(lines[0].len() == 8);
            } else if k == 1 {
                if i >= 2 {
                    assert(lines[1][i] == m.updated_at[i - 2]);
                }
            } else if k < 2 + m.ifaces.len() {
                let e = m.ifaces[k - 2];
                assert(lines[k] == irows[k - 2]);
                assert(irows[k - 2] == net_row_line('i', e.0, e.1.rx, e.1.tx));
                lemma_parse_row_line('i', e.0, e.1.rx, e.1.tx);
            } else {
                let e = m.statistics[k - 2 - m.ifaces.len()];
                assert(lines[k] == srows[k - 2 - m.ifaces.len()]);
                assert(srows[k - 2 - m.ifaces.len()] == net_row_line('s', e.0, e.1.rx, e.1.tx));
                lemma_parse_row_line('s', e.0, e.1.rx, e.1.tx);
            }
        }
        lemma_split_join(lines);
        let enc = self.spec_encode();
        let toks = split_char(enc, '\n');
        assert(toks == lines.push(Seq::<char>::empty()));
        assert(toks.last() == Seq::<char>::empty());
        assert(toks.drop_last() =~~= lines);
        assert(lines.len() >= 2);
        assert(parse_ts_line(lines[1]) == Some(m.updated_at)) by {
            assert(lines[1][0] == 't' && lines[1][1] == ' ');
            assert(lines[1].skip(2) =~= m.updated_at);
        }
        assert(fold_net_rows(Seq::<Seq<char>>::empty()) == Some(
            (
                Seq::<(Seq<char>, IfaceCounters)>::empty(),
                Seq::<(Seq<char>, IfaceCounters)>::empty(),
            ),
        ));
        lemma_fold_iface_rows(
            Seq::<Seq<char>>::empty(),
            Seq::<(Seq<char>, IfaceCounters)>::empty(),
            Seq::<(Seq<char>, IfaceCounters)>::empty(),
            m.ifaces,
        );
        assert(Seq::<Seq<char>>::empty() + irows =~= irows);
        assert(Seq::<(Seq<char>, IfaceCounters)>::empty() + m.ifaces =~= m.ifaces);
        assert(fold_net_rows(irows) == Some(
            (m.ifaces, Seq::<(Seq<char>, IfaceCounters)>::empty()),
        ));
        lemma_fold_stat_rows(
            irows,
            m.ifaces,
            Seq::<(Seq<char>, IfaceCounters)>::empty(),
            m.statistics,
        );
        assert(Seq::<(Seq<char>, IfaceCounters)>::empty() + m.statistics =~= m.statistics);
        assert(fold_net_rows(irows + srows) == Some((m.ifaces, m.statistics)));
        assert(lines.skip(2) =~~= irows + srows);
        assert(spec_decode_net(enc) == Some(m));
    }

    proof fn lemma_decodes_deterministic(s: Seq<char>, a: &Self, b: &Self) {
    }
}

impl StorableSnapshot for PacketState {
    open spec fn wf_store(&self) -> bool {
        &&& self.wf()
        &&& entries_storable(self.ifaces.entries_seq())
        &&& storable_text(self.updated_at@)
    }

    open spec fn spec_encode(&self) -> Seq<char> {
        spec_encode_pkt(pkt_model(*self))
    }

    open spec fn spec_decodes(s: Seq<char>, v: &Self) -> bool {
        spec_decode_pkt(s) == Some(pkt_model(*v))
    }

    open spec fn spec_decodable(s: Seq<char>) -> bool {
        spec_decode_pkt(s) is Some
    }

    open spec fn same_snapshot(a: &Self, b: &Self) -> bool {
        pkt_model(*a) == pkt_model(*b)
    }

    fn decode(s: &str) -> (r: Result<Self, DecodeError>) {
        let toks: Vec<String> = split_str(s, '\n');
        proof {
            lemma_split_char_len(s@, '\n');
            lemma_split_char_tokens_no_sep(s@, '\n');
        }
        let ghost sp = split_char(s@, '\n');
        let n: usize = toks.len();
        assert(forall|j: int| 0 <= j < n ==> #[trigger] toks@[j]@ == sp[j]);
        if toks[n - 1].as_str().unicode_len() != 0 {
            proof {
                assert(sp.last() != Seq::<char>::empty());
            }
            return Err(DecodeError);
        }
        assert(sp.last() =~= Seq::<char>::empty());
        let ghost lines = sp.drop_last();
        if n - 1 < 2 {
            return Err(DecodeError);
        }
        if !str_eq(toks[0].as_str(), "packetstate") {
            assert(lines[0] != "packetstate"@);
            return Err(DecodeError);
        }
        assert(lines[0] == "packetstate"@);
        let tsl: &String = &toks[1];
        let tll: usize = tsl.as_str().unicode_len();
        if !(tll >= 2 && tsl.as_str().get_char(0) == 't' && tsl.as_str().get_char(1) == ' ') {
            assert(parse_ts_line(lines[1]) is None);
            return Err(DecodeError);
        }
        let ts: String = String::from_str(tsl.as_str().substring_char(2, tll));
        assert(ts@ =~= lines[1].skip(2));
        assert(parse_ts_line(lines[1]) == Some(ts@));
        assert(storable_text(ts@)) by {
            assert(forall|i: int| 0 <= i < lines[1].len() ==> #[trigger] lines[1][i] != '\n');
            assert(forall|i: int| 0 <= i < ts@.len() ==> ts@[i] == #[trigger] lines[1][i + 2]);
        }
        let ghost tsv = ts@;
        let mut st: PacketState = PacketState::new(ts);
        let ghost rows = lines.skip(2);
        let mut i: usize = 2;
        while i < n - 1
            invariant
                2 <= i <= n - 1,
                n == toks@.len(),
                n >= 3,
                sp == split_char(s@, '\n'),
                n == sp.len(),
                lines == sp.drop_last(),
                rows == lines.skip(2),
                forall|j: int| 0 <= j < n ==> #[trigger] toks@[j]@ == sp[j],
                forall|k: int, j: int|
                    0 <= k < sp.len() && 0 <= j < sp[k].len() ==> #[trigger] sp[k][j] != '\n',
                st.wf(),
                st.updated_at@ == tsv,
                storable_text(tsv),
                entries_storable(st.ifaces.entries_seq()),
                fold_pkt_rows(rows.take(i - 2)) == Some(st.ifaces.entries_seq()),
            decreases n - 1 - i,
        {
            let line: &String = &toks[i];
            assert(line@ == sp[i as int] && sp[i as int] == lines[i as int] && lines[i as int]
                == rows[i - 2]);
            let fs: Vec<String> = str_fields(line.as_str());
            assert(fs@.map_values(|t: String| t@) == spec_fields(line@));
            assert(rows.take(i - 1).drop_last() =~= rows.take(i - 2));
            assert(rows.take(i - 1).last() == rows[i - 2]);
            proof {
                lemma_fields_tokens_wf(line@);
            }
            if fs.len() != 6 {
                proof {
                    assert(parse_pkt_row(rows[i - 2]) is None);
                    assert(fold_pkt_rows(rows.take(i - 1)) is None);
                    lemma_fold_pkt_rows_none(rows, i - 1);
                }
                return Err(DecodeError);
            }
            let tag: &String = &fs[0];
            let tag_ok: bool = tag.as_str().unicode_len() == 1 && tag.as_str().get_char(0) == 'i';
            proof {
                assert(fs@[0]@ == spec_fields(line@)[0]);
                if tag_ok {
                    assert(fs@[0]@ =~= seq!['i']);
                } else {
                    if fs@[0]@ == seq!['i'] {
                        assert(fs@[0]@.len() == 1 && fs@[0]@[0] == 'i');
                    }
                }
            }
            if !tag_ok {
                proof {
                    assert(parse_pkt_row(rows[i - 2]) is None);
                    assert(fold_pkt_rows(rows.take(i - 1)) is None);
                    lemma_fold_pkt_rows_none(rows, i - 1);
                }
                return Err(DecodeError);
            }
            let v1: Option<u64> = parse_u64(fs[2].as_str());
            let v2: Option<u64> = parse_u64(fs[3].as_str());
            let v3: Option<u64> = parse_u64(fs[4].as_str());
            let v4: Option<u64> = parse_u64(fs[5].as_str());
            match (v1, v2, v3, v4) {
                (Some(a), Some(b), Some(c), Some(d)) => {
                    let name: String = fs[1].clone();
                    assert(name@ == spec_fields(line@)[1]);
                    let rec: PktCounters = PktCounters {
                        rx_dropped: a,
                        tx_dropped: b,
                        rx_errors: c,
                        tx_errors: d,
                    };
                    assert(parse_pkt_row(rows[i - 2]) == Some((name@, rec)));
                    assert(storable_key(name@));
                    let ghost acc0 = st.ifaces.entries_seq();
                    st.ifaces.insert(name, rec);
                    proof {
                        lemma_storable_insert(acc0, name@, rec);
                    }
                },
                _ => {
                    proof {
                        assert(parse_pkt_row(rows[i - 2]) is None);
                        assert(fold_pkt_rows(rows.take(i - 1)) is None);
                        lemma_fold_pkt_rows_none(rows, i - 1);
                    }
                    return Err(DecodeError);
                },
            }
            i = i + 1;
        }
        proof {
            assert(rows.take(n - 1 - 2) =~= rows);
            assert(spec_decode_pkt(s@) == Some(pkt_model(st)));
        }
        Ok(st)
    }

    #[verifier::rlimit(60)]
    fn encode(&self) -> (r: String) {
        let ghost m = pkt_model(*self);
        let mut out: String = String::new();
        out.append("packetstate");
        out.push('\n');
        let ghost done0 = seq!["packetstate"@];
        assert(out@ =~= join_lines(done0)) by {
            assert(done0.len() == 1);
            assert(done0.last() == "packetstate"@);
            assert(done0.drop_last() =~= Seq::<Seq<char>>::empty());
            assert(join_lines(Seq::<Seq<char>>::empty()) == Seq::<char>::empty());
            assert(join_lines(done0) == Seq::<char>::empty() + "packetstate"@ + seq!['\n']);
        }
        out.push('t');
        out.push(' ');
        out.append(self.updated_at.as_str());
        out.push('\n');
        let ghost done1 = done0.push(seq!['t', ' '] + m.updated_at);
        assert(out@ =~= join_lines(done1)) by {
            assert(done1.drop_last() =~= done0);
            assert(done1.last() =~= seq!['t', ' '] + m.updated_at);
        }

        let n1: usize = self.ifaces.len();
        let mut i: usize = 0;
        while i < n1
            invariant
                0 <= i <= n1,
                n1 == m.ifaces.len(),
                m == pkt_model(*self),
                done1 == seq!["packetstate"@].push(seq!['t', ' '] + m.updated_at),
                out@ == join_lines(
                    done1 + m.ifaces.take(i as int).map_values(
                        |e: (Seq<char>, PktCounters)| pkt_row_line(e.0, e.1),
                    ),
                ),
            decreases n1 - i,
        {
            let (name, c) = self.ifaces.entry_at(i);
            let nm: String = name.clone();
            let c1: u64 = c.rx_dropped;
            let c2: u64 = c.tx_dropped;
            let c3: u64 = c.rx_errors;
            let c4: u64 = c.tx_errors;
            out.push('i');
            out.push(' ');
            out.append(nm.as_str());
            out.push(' ');
            let d1: String = print_u64(c1);
            out.append(d1.as_str());
            out.push(' ');
            let d2: String = print_u64(c2);
            out.append(d2.as_str());
            out.push(' ');
            let d3: String = print_u64(c3);
            out.append(d3.as_str());
            out.push(' ');
            let d4: String = print_u64(c4);
            out.append(d4.as_str());
            out.push('\n');
            proof {
                let e = m.ifaces[i as int];
                let row = pkt_row_line(e.0, e.1);
                let prev = done1 + m.ifaces.take(i as int).map_values(
                    |ee: (Seq<char>, PktCounters)| pkt_row_line(ee.0, ee.1),
                );
                let next = done1 + m.ifaces.take(i + 1).map_values(
                    |ee: (Seq<char>, PktCounters)| pkt_row_line(ee.0, ee.1),
                );
                assert(next.drop_last() =~~= prev);
                assert(next.last() == m.ifaces.take(i + 1).map_values(
                    |ee: (Seq<char>, PktCounters)| pkt_row_line(ee.0, ee.1),
                )[i as int]);
                assert(next.last() == row);
                assert(out@ =~= join_lines(prev) + row + seq!['\n']);
                assert(out@ =~= join_lines(next));
            }
            i = i + 1;
        }
        assert(m.ifaces.take(n1 as int) =~= m.ifaces);
        proof {
            let done2 = done1 + m.ifaces.map_values(
                |e: (Seq<char>, PktCounters)| pkt_row_line(e.0, e.1),
            );
            assert(done2 =~~= pkt_lines(m));
        }
        out
    }

    proof fn lemma_round_trip(&self) {
        let m = pkt_model(*self);
        let lines = pkt_lines(m);
        let irows = m.ifaces.map_values(|e: (Seq<char>, PktCounters)| pkt_row_line(e.0, e.1));
        reveal_strlit("packetstate");
        assert(lines[0] == "packetstate"@);
        assert(lines[1] == seq!['t', ' '] + m.updated_at);
        assert forall|k: int, i: int|
            0 <= k < lines.len() && 0 <= i < lines[k].len() implies #[trigger] lines[k][i]
            != '\n' by {
            if k == 0 {
                assert(lines[0].len() == 11);
            } else if k == 1 {
                if i >= 2 {
                    assert(lines[1][i] == m.updated_at[i - 2]);
                }
            } else {
                let e = m.ifaces[k - 2];
                assert(lines[k] == irows[k - 2]);
                assert(irows[k - 2] == pkt_row_line(e.0, e.1));
                lemma_parse_pkt_row_line(e.0, e.1);
            }
        }
        lemma_split_join(lines);
        let enc = self.spec_encode();
        let toks = split_char(enc, '\n');
        assert(toks == lines.push(Seq::<char>::empty()));
        assert(toks.last() == Seq::<char>::empty());
        assert(toks.drop_last() =~~= lines);
        assert(lines.len() >= 2);
        assert(parse_ts_line(lines[1]) == Some(m.updated_at)) by {
            assert(lines[1][0] == 't' && lines[1][1] == ' ');
            assert(lines[1].skip(2) =~= m.updated_at);
        }
        assert(fold_pkt_rows(Seq::<Seq<char>>::empty()) == Some(
            Seq::<(Seq<char>, PktCounters)>::empty(),
        ));
        lemma_fold_pkt_row_entries(
            Seq::<Seq<char>>::empty(),
            Seq::<(Seq<char>, PktCounters)>::empty(),
            m.ifaces,
        );
        assert(Seq::<Seq<char>>::empty() + irows =~= irows);
        assert(Seq::<(Seq<char>, PktCounters)>::empty() + m.ifaces =~= m.ifaces);
        assert(fold_pkt_rows(irows) == Some(m.ifaces));
        assert(lines.skip(2) =~~= irows);
        assert(spec_decode_pkt(enc) == Some(m));
    }

    proof fn lemma_decodes_deterministic(s: Seq<char>, a: &Self, b: &Self) {
    }
}

/// Inserting a storable key keeps every key storable.
pub proof fn lemma_storable_insert<V>(s: Seq<(Seq<char>, V)>, k: Seq<char>, v: V)
    requires
        entries_storable(s),
        storable_key(k),
    ensures
        entries_storable(seq_insert(s, k, v)),
{
    lemma_seq_find(s, k);
    let r = seq_insert(s, k, v);
    assert forall|i: int| 0 <= i < r.len() implies storable_key((#[trigger] r[i]).0) by {
        if seq_find(s, k) < s.len() {
            if i != seq_find(s, k) {
                assert(r[i] == s[i]);
            }
        } else {
            if i < s.len() {
                assert(r[i] == s[i]);
            }
        }
    }
}

/// Loads the stored snapshot: an absent record is NotFound, text that does
/// not decode a DecodeError.
pub fn load_snapshot<T: StorableSnapshot>(stored: &Option<String>) -> (r: Result<T, StoreError>)
    ensures
        (match stored {
            Some(text) => {
                if T::spec_decodable(text@) {
                    r matches Ok(v) && T::spec_decodes(text@, &v) && v.wf_store()
                } else {
                    r matches Err(e) && e == StoreError::DecodeError
                }
            },
            None => r matches Err(e) && e == StoreError::NotFound,
        }),
{
    match stored {
        Some(text) => match T::decode(text.as_str()) {
            Ok(v) => Ok(v),
            Err(_) => Err(StoreError::DecodeError),
        },
        None => Err(StoreError::NotFound),
    }
}

/// Loads the stored snapshot when its text decodes; on a missing or
/// malformed store computes nothing anew but takes the freshly computed
/// snapshot, and hands back the text that makes the store hold exactly it.
/// The original read failure is never propagated, only superseded.
pub fn load_or_create_file<T: StorableSnapshot>(stored: &Option<String>, fresh: T) -> (r: (
    T,
    Option<String>,
))
    requires
        fresh.wf_store(),
    ensures
        (match stored {
            Some(text) => {
                if T::spec_decodable(text@) {
                    T::spec_decodes(text@, &r.0) && r.0.wf_store() && r.1 is None
                } else {
                    r.0 == fresh && (r.1 matches Some(w) && w@ == fresh.spec_encode())
                }
            },
            None => r.0 == fresh && (r.1 matches Some(w) && w@ == fresh.spec_encode()),
        }),
{
    match stored {
        Some(text) => match T::decode(text.as_str()) {
            Ok(v) => (v, None),
            Err(_) => {
                let w: String = fresh.encode();
                (fresh, Some(w))
            },
        },
        None => {
            let w: String = fresh.encode();
            (fresh, Some(w))
        },
    }
}

/// After the self-healing path, the store holds exactly the fresh
/// snapshot: the written text decodes, and every snapshot it decodes to is
/// the same one, so a subsequent load returns the same value.
pub proof fn lemma_store_self_healing<T: StorableSnapshot>(fresh: &T)
    requires
        fresh.wf_store(),
    ensures
        T::spec_decodable(fresh.spec_encode()),
        T::spec_decodes(fresh.spec_encode(), fresh),
        forall|v: T| T::spec_decodes(fresh.spec_encode(), &v) ==> T::same_snapshot(&v, fresh),
{
    fresh.lemma_round_trip();
    assert forall|v: T| T::spec_decodes(fresh.spec_encode(), &v) implies T::same_snapshot(
        &v,
        fresh,
    ) by {
        T::lemma_decodes_deterministic(fresh.spec_encode(), &v, fresh);
    }
}

/// What a counter file's text counts as: the text without its surrounding
/// ASCII whitespace, read as a decimal numeral with an optional leading
/// plus sign, and zero when it is not one.
pub open spec fn spec_read_number(s: Seq<char>) -> u64 {
    let t = spec_trim(s);
    let u = if t.len() > 0 && t[0] == '+' {
        t.skip(1)
    } else {
        t
    };
    match parse_u64_spec(u) {
        Some(v) => v,
        None => 0u64,
    }
}

/// The number a stored text holds, as `spec_read_number` describes.
pub fn read_u64(content: &str) -> (r: u64)
    ensures
        r == spec_read_number(content@),
{
    let trimmed: &str = str_trim(content);
    let tl: usize = trimmed.unicode_len();
    let digits: &str = if tl > 0 && trimmed.get_char(0) == '+' {
        let d = trimmed.substring_char(1, tl);
        assert(d@ =~= spec_trim(content@).skip(1));
        d
    } else {
        trimmed
    };
    match parse_u64(digits) {
        Some(v) => v,
        None => 0,
    }
}

} // verus!
