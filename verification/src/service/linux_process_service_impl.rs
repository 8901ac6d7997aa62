use vstd::prelude::*;
use vstd::string::*;
use crate::model::memory::{OsMemRes, ProcessSample};
use crate::service::linux_metric_service_impl::{fold_process_mem, process_matches};
use crate::utils_module::parse_utils::{lower_of, lowercase, spec_contains_sub, str_contains};

verus! {

/// Measures process memory on the Linux side from the enumeration the OS
/// collector hands in as plain values.
#[derive(Debug, Clone)]
pub struct LinuxProcessServiceImpl;

impl LinuxProcessServiceImpl {
    pub fn new() -> (r: Self)
        ensures
            r == LinuxProcessServiceImpl,
    {
        LinuxProcessServiceImpl
    }

    /// Sums the resident and virtual memory of the processes whose
    /// lower-cased name contains one of the keywords, the keywords
    /// lower-cased as well, clamped rather than wrapped.
    pub fn get_process_memory_usage_linux(
        &self,
        keywords: &Vec<String>,
        processes: &Vec<ProcessSample>,
    ) -> (r: OsMemRes)
        ensures
            r.working_set_size == fold_process_mem(
                processes@,
                keywords@.map_values(|s: String| lower_of(s@)),
            ).0,
            r.virtual_size == fold_process_mem(
                processes@,
                keywords@.map_values(|s: String| lower_of(s@)),
            ).1,
    {
        let ghost kws = keywords@.map_values(|s: String| lower_of(s@));
        let mut lowered: Vec<String> = Vec::new();
        let m: usize = keywords.len();
        let mut k: usize = 0;
        while k < m
            invariant
                0 <= k <= m,
                m == keywords@.len(),
                lowered@.len() == k,
                forall|j: int| 0 <= j < k ==> (#[trigger] lowered@[j])@ == lower_of(keywords@[j]@),
            decreases m - k,
        {
            lowered.push(lowercase(keywords[k].as_str()));
            k = k + 1;
        }
        let mut total_rss_byte: u64 = 0;
        let mut total_vms_byte: u64 = 0;
        let n: usize = processes.len();
        let mut i: usize = 0;
        while i < n
            invariant
                0 <= i <= n,
                n == processes@.len(),
                kws == keywords@.map_values(|s: String| lower_of(s@)),
                lowered@.len() == kws.len(),
                forall|j: int|
                    0 <= j < lowered@.len() ==> (#[trigger] lowered@[j])@ == lower_of(
                        keywords@[j]@,
                    ),
                (total_rss_byte, total_vms_byte) == fold_process_mem(
                    processes@.take(i as int),
                    kws,
                ),
            decreases n - i,
        {
            assert(processes@.take(i + 1).drop_last() =~= processes@.take(i as int));
            assert(processes@.take(i + 1).last() == processes@[i as int]);
            let name_lower: String = lowercase(processes[i].name.as_str());
            let matched: bool = Self::any_keyword_matches(&name_lower, &lowered);
            proof {
                let nm = processes@[i as int].name@;
                assert(name_lower@ == lower_of(nm));
                if matched {
                    let kk = choose|kk: int|
                        0 <= kk < lowered@.len() && spec_contains_sub(
                            name_lower@,
                            (#[trigger] lowered@[kk])@,
                        );
                    assert(kws[kk] == lower_of(keywords@[kk]@));
                    assert(spec_contains_sub(lower_of(nm), kws[kk]));
                    assert(process_matches(nm, kws));
                } else {
                    if process_matches(nm, kws) {
                        let kk = choose|kk: int|
                            0 <= kk < kws.len() && spec_contains_sub(
                                lower_of(nm),
                                #[trigger] kws[kk],
                            );
                        assert(kws[kk] == lower_of(keywords@[kk]@));
                        assert(spec_contains_sub(name_lower@, lowered@[kk]@));
                    }
                }
                assert(matched == process_matches(nm, kws));
            }
            if matched {
                total_rss_byte = total_rss_byte.saturating_add(processes[i].memory);
                total_vms_byte = total_vms_byte.saturating_add(processes[i].virtual_memory);
            }
            i = i + 1;
        }
        assert(processes@.take(n as int) =~= processes@);
        OsMemRes::new(total_rss_byte, total_vms_byte)
    }

    /// Whether the lower-cased name contains any of the keywords.
    fn any_keyword_matches(name_lower: &String, keywords: &Vec<String>) -> (r: bool)
        ensures
            r == exists|k: int|
                0 <= k < keywords@.len() && spec_contains_sub(
                    name_lower@,
                    (#[trigger] keywords@[k])@,
                ),
    {
        let m: usize = keywords.len();
        let mut k: usize = 0;
        while k < m
            invariant
                0 <= k <= m,
                m == keywords@.len(),
                forall|j: int|
                    0 <= j < k ==> !spec_contains_sub(name_lower@, (#[trigger] keywords@[j])@),
            decreases m - k,
        {
            if str_contains(name_lower.as_str(), keywords[k].as_str()) {
                return true;
            }
            k = k + 1;
        }
        false
    }
}

} // verus!
