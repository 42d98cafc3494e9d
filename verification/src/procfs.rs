//! Reading the fields of a `/proc/<pid>/status` file, and collecting the
//! processes of one user from the status files of the process table.
use vstd::prelude::*;
use vstd::string::StringExecFns;
use std::collections::BTreeMap;

use crate::ordered::sorted_keys;
use crate::ordered::strictly_increasing;
use crate::text::{chars_of, first_word, first_word_range, is_space, leading_word, parse_u32, parse_u32_range, string_from_range, trim, trim_end, trim_range, trim_start};

verus! {

broadcast use vstd::std_specs::btree::group_btree_axioms, vstd::laws_cmp::group_laws_cmp;

/// One process of the process table.
#[derive(Debug, PartialEq, Eq)]
pub struct Process {
    pub name: String,
    pub pid: u32,
    pub ppid: u32,
    pub uid: u32,
}

impl Clone for Process {
    fn clone(&self) -> (r: Self)
        ensures
            r == *self,
    {
        Process { name: self.name.clone(), pid: self.pid, ppid: self.ppid, uid: self.uid }
    }
}

/// The processes of one user found in the process table, and how many status
/// files could not be read.
#[derive(Debug, Clone, PartialEq, Eq)]
pub struct ScanReport {
    pub processes: Vec<Process>,
    pub unreadable_statuses: usize,
}

/// The fields of a status file gathered so far.
pub struct StatusFields {
    pub name: Option<Seq<char>>,
    pub pid: Option<u32>,
    pub ppid: Option<u32>,
    pub uid: Option<u32>,
}

/// The number of characters from `i` up to the next line feed or the end.
pub open spec fn line_len(s: Seq<char>, i: int) -> nat
    decreases s.len() - i,
{
    if i < 0 || i >= s.len() || s[i] == '\n' {
        0
    } else {
        1 + line_len(s, i + 1)
    }
}

/// The line that starts at `i` and ends before the line feed at `j`, or at
/// the end of `s`; a carriage return before the line feed is not part of it,
/// as `str::lines` gives it.
pub open spec fn line_at(s: Seq<char>, i: int, j: int) -> Seq<char> {
    let seg = s.subrange(i, j);
    if j < s.len() && seg.len() > 0 && seg.last() == '\r' {
        seg.drop_last()
    } else {
        seg
    }
}

/// Whether `line` begins with `pat`.
pub open spec fn starts_with(line: Seq<char>, pat: Seq<char>) -> bool {
    pat.len() <= line.len() && line.subrange(0, pat.len() as int) == pat
}

/// What follows `pat` in `line`.
pub open spec fn after(line: Seq<char>, pat: Seq<char>) -> Seq<char> {
    line.subrange(pat.len() as int, line.len() as int)
}

/// One line of a status file applied to the fields gathered so far: a
/// `Name:` line sets the name to its trimmed value; `Pid:` and `PPid:` lines
/// set their numbers or fail; a `Uid:` line sets the real UID from its first
/// word or fails; other lines change nothing.
pub open spec fn status_step(f: StatusFields, line: Seq<char>) -> Result<StatusFields, Seq<char>> {
    if starts_with(line, "Name:"@) {
        Ok(StatusFields { name: Some(trim(after(line, "Name:"@))), pid: f.pid, ppid: f.ppid, uid: f.uid })
    } else if starts_with(line, "Pid:"@) {
        match parse_u32(trim(after(line, "Pid:"@))) {
            Some(v) => Ok(StatusFields { name: f.name, pid: Some(v), ppid: f.ppid, uid: f.uid }),
            None => Err("invalid Pid"@),
        }
    } else if starts_with(line, "PPid:"@) {
        match parse_u32(trim(after(line, "PPid:"@))) {
            Some(v) => Ok(StatusFields { name: f.name, pid: f.pid, ppid: Some(v), uid: f.uid }),
            None => Err("invalid PPid"@),
        }
    } else if starts_with(line, "Uid:"@) {
        match first_word(after(line, "Uid:"@)) {
            None => Err("missing real UID"@),
            Some(w) => match parse_u32(w) {
                Some(v) => Ok(StatusFields { name: f.name, pid: f.pid, ppid: f.ppid, uid: Some(v) }),
                None => Err("invalid real UID"@),
            },
        }
    } else {
        Ok(f)
    }
}

/// The lines of `s` from position `i` on applied in order to `f`; the first
/// failing line ends the scan with its error.
pub open spec fn status_scan(s: Seq<char>, i: int, f: StatusFields) -> Result<StatusFields, Seq<char>>
    decreases s.len() + 1 - i,
{
    if i < 0 || i >= s.len() {
        Ok(f)
    } else {
        let j = i + line_len(s, i);
        proof {
            lemma_line_len_bound(s, i);
        }
        match status_step(f, line_at(s, i, j)) {
            Ok(g) => status_scan(s, j + 1, g),
            Err(e) => Err(e),
        }
    }
}

/// The record that a status file describes: name, PID, parent PID and real
/// UID, or the error that `parse_status` reports.
pub open spec fn status_record(s: Seq<char>) -> Result<(Seq<char>, u32, u32, u32), Seq<char>> {
    match status_scan(s, 0, StatusFields { name: None, pid: None, ppid: None, uid: None }) {
        Err(e) => Err(e),
        Ok(f) => match (f.name, f.pid, f.ppid, f.uid) {
            (None, _, _, _) => Err("missing Name"@),
            (Some(_), None, _, _) => Err("missing Pid"@),
            (Some(_), Some(_), None, _) => Err("missing PPid"@),
            (Some(_), Some(_), Some(_), None) => Err("missing Uid"@),
            (Some(n), Some(p), Some(pp), Some(u)) => Ok((n, p, pp, u)),
        },
    }
}

/// The characters of an optional string.
pub open spec fn text_view(t: Option<String>) -> Option<Seq<char>> {
    match t {
        Some(s) => Some(s@),
        None => None,
    }
}

/// The fields of a process as plain values.
pub open spec fn process_fields(p: Process) -> (Seq<char>, u32, u32, u32) {
    (p.name@, p.pid, p.ppid, p.uid)
}

/// A line ends at a line feed or at the end of the text.
pub proof fn lemma_line_len_bound(s: Seq<char>, i: int)
    requires
        0 <= i <= s.len(),
    ensures
        i + line_len(s, i) <= s.len(),
        i + line_len(s, i) < s.len() ==> s[i + line_len(s, i)] == '\n',
        forall|k: int| i <= k < i + line_len(s, i) ==> s[k] != '\n',
    decreases s.len() - i,
{
    if i < s.len() && s[i] != '\n' {
        lemma_line_len_bound(s, i + 1);
    }
}

/// The index of the first line feed at or after `i`, or the length.
fn line_end(s: &Vec<char>, i: usize) -> (j: usize)
    requires
        i <= s@.len(),
    ensures
        j == i + line_len(s@, i as int),
        j <= s@.len(),
{
    proof {
        lemma_line_len_bound(s@, i as int);
    }
    let mut j = i;
    while j < s.len() && s[j] != '\n'
        invariant
            i <= j <= s@.len(),
            line_len(s@, i as int) == (j - i) + line_len(s@, j as int),
        decreases s@.len() - j,
    {
        j = j + 1;
    }
    j
}

/// Whether `s[lo..hi]` begins with `pat`.
fn has_prefix(s: &Vec<char>, lo: usize, hi: usize, pat: &Vec<char>) -> (r: bool)
    requires
        lo <= hi <= s@.len(),
    ensures
        r == starts_with(s@.subrange(lo as int, hi as int), pat@),
{
    if pat.len() > hi - lo {
        return false;
    }
    let mut k: usize = 0;
    while k < pat.len()
        invariant
            lo + pat@.len() <= hi <= s@.len(),
            k <= pat@.len(),
            forall|t: int| 0 <= t < k ==> s@[lo + t] == pat@[t],
        decreases pat@.len() - k,
    {
        if s[lo + k] != pat[k] {
            assert(s@.subrange(lo as int, hi as int).subrange(0, pat@.len() as int)[k as int]
                != pat@[k as int]);
            return false;
        }
        k = k + 1;
    }
    assert(s@.subrange(lo as int, hi as int).subrange(0, pat@.len() as int) =~= pat@);
    true
}

/// The fields of `/proc/<pid>/status` contents that the process tree needs:
/// the name, PID, parent PID and real UID. A later line of the same field
/// replaces an earlier one; a PID, parent PID or real UID that does not read
/// as a `u32` fails at its line; a field that never occurs fails at the end,
/// in the order name, PID, parent PID, UID.
pub fn parse_status(contents: &str) -> (r: Result<Process, String>)
    ensures
        match r {
            Ok(p) => status_record(contents@) == Ok::<_, Seq<char>>(process_fields(p)),
            Err(e) => status_record(contents@) == Err::<(Seq<char>, u32, u32, u32), _>(e@),
        },
{
    let s = chars_of(contents);
    let name_pat = chars_of("Name:");
    let pid_pat = chars_of("Pid:");
    let ppid_pat = chars_of("PPid:");
    let uid_pat = chars_of("Uid:");
    let n = s.len();
    let mut name: Option<String> = None;
    let mut pid: Option<u32> = None;
    let mut ppid: Option<u32> = None;
    let mut uid: Option<u32> = None;
    let ghost init = StatusFields { name: None, pid: None, ppid: None, uid: None };
    let mut i: usize = 0;
    while i < n
        invariant
            n == s@.len(),
            s@ == contents@,
            name_pat@ == "Name:"@,
            pid_pat@ == "Pid:"@,
            ppid_pat@ == "PPid:"@,
            uid_pat@ == "Uid:"@,
            i <= n + 1,
            init == (StatusFields { name: None, pid: None, ppid: None, uid: None }),
            status_scan(s@, 0, init) == status_scan(
                s@,
                i as int,
                StatusFields {
                    name: text_view(name),
                    pid,
                    ppid,
                    uid,
                },
            ),
        decreases n + 1 - i,
    {
        let ghost f = StatusFields {
            name: text_view(name),
            pid,
            ppid,
            uid,
        };
        let j = line_end(&s, i);
        let mut hi = j;
        if j < n && hi > i && s[hi - 1] == '\r' {
            hi = hi - 1;
        }
        let ghost line = line_at(s@, i as int, j as int);
        assert(line =~= s@.subrange(i as int, hi as int));
        assert(status_scan(s@, i as int, f) == match status_step(f, line) {
            Ok(g) => status_scan(s@, j + 1, g),
            Err(e) => Err(e),
        });
        if has_prefix(&s, i, hi, &name_pat) {
            let (a, b) = trim_range(&s, i + name_pat.len(), hi);
            assert(after(line, "Name:"@) =~= s@.subrange(i + name_pat@.len(), hi as int));
            name = Some(string_from_range(&s, a, b));
        } else if has_prefix(&s, i, hi, &pid_pat) {
            let (a, b) = trim_range(&s, i + pid_pat.len(), hi);
            assert(after(line, "Pid:"@) =~= s@.subrange(i + pid_pat@.len(), hi as int));
            match parse_u32_range(&s, a, b) {
                Some(v) => {
                    pid = Some(v);
                },
                None => {
                    return Err(String::from_str("invalid Pid"));
                },
            }
        } else if has_prefix(&s, i, hi, &ppid_pat) {
            let (a, b) = trim_range(&s, i + ppid_pat.len(), hi);
            assert(after(line, "PPid:"@) =~= s@.subrange(i + ppid_pat@.len(), hi as int));
            match parse_u32_range(&s, a, b) {
                Some(v) => {
                    ppid = Some(v);
                },
                None => {
                    return Err(String::from_str("invalid PPid"));
                },
            }
        } else if has_prefix(&s, i, hi, &uid_pat) {
            assert(after(line, "Uid:"@) =~= s@.subrange(i + uid_pat@.len(), hi as int));
            match first_word_range(&s, i + uid_pat.len(), hi) {
                None => {
                    return Err(String::from_str("missing real UID"));
                },
                Some((a, b)) => {
                    match parse_u32_range(&s, a, b) {
                        Some(v) => {
                            uid = Some(v);
                        },
                        None => {
                            return Err(String::from_str("invalid real UID"));
                        },
                    }
                },
            }
        }
        if j < n {
            i = j + 1;
        } else {
            i = n;
        }
    }
    match (name, pid, ppid, uid) {
        (None, _, _, _) => Err(String::from_str("missing Name")),
        (Some(_), None, _, _) => Err(String::from_str("missing Pid")),
        (Some(_), Some(_), None, _) => Err(String::from_str("missing PPid")),
        (Some(_), Some(_), Some(_), None) => Err(String::from_str("missing Uid")),
        (Some(nm), Some(p), Some(pp), Some(u)) => Ok(Process { name: nm, pid: p, ppid: pp, uid: u }),
    }
}

/// The PID of the process whose directory in the process table is named
/// `name`: the directories of processes are named by their PID in decimal,
/// and an entry of any other name is no process.
pub fn pid_of_entry(name: &str) -> (r: Option<u32>)
    ensures
        r == parse_u32(name@),
{
    let s = chars_of(name);
    assert(s@.subrange(0, s@.len() as int) =~= name@);
    parse_u32_range(&s, 0, s.len())
}

/// Whether status contents read for process `pid` describe a process of the
/// user `uid` whose own PID is `pid`.
pub open spec fn kept_status(contents: Seq<char>, pid: u32, uid: u32) -> bool {
    status_record(contents) matches Ok(rec) && rec.1 == pid && rec.3 == uid
}

/// The PIDs whose status file could not be read.
pub open spec fn unreadable_pids(statuses: Map<u32, Option<String>>) -> Set<u32> {
    statuses.dom().filter(|k: u32| statuses[k] is None)
}

/// The processes of the user `target_uid`, from the status files of the
/// process table: `statuses` maps each PID of the table to the contents of
/// its status file, or to `None` where that file could not be read. A
/// process is kept when its status parses, names the same PID and the real
/// UID `target_uid`; the kept processes come in increasing PID order, and
/// the unreadable files are counted.
pub fn report_from_statuses(statuses: &BTreeMap<u32, Option<String>>, target_uid: u32) -> (r:
    ScanReport)
    ensures
        forall|i: int, j: int|
            0 <= i < j < r.processes@.len() ==> r.processes@[i].pid < r.processes@[j].pid,
        forall|i: int|
            0 <= i < r.processes@.len() ==> {
                let p = #[trigger] r.processes@[i];
                &&& statuses@.contains_key(p.pid)
                &&& statuses@[p.pid] matches Some(c)
                &&& status_record(c@) == Ok::<_, Seq<char>>(process_fields(p))
                &&& p.uid == target_uid
            },
        forall|pid: u32|
            #[trigger] statuses@.contains_key(pid) && (statuses@[pid] matches Some(c) && kept_status(
                c@,
                pid,
                target_uid,
            )) ==> exists|i: int| 0 <= i < r.processes@.len() && r.processes@[i].pid == pid,
        r.unreadable_statuses == unreadable_pids(statuses@).len(),
{
    let ks = sorted_keys(statuses);
    let mut processes: Vec<Process> = Vec::new();
    let mut unreadable: usize = 0;
    let ghost mut missing: Set<u32> = Set::empty();
    let mut i: usize = 0;
    while i < ks.len()
        invariant
            0 <= i <= ks@.len(),
            strictly_increasing(ks@),
            forall|k: u32| ks@.contains(k) <==> statuses@.contains_key(k),
            forall|a: int, b: int|
                0 <= a < b < processes@.len() ==> processes@[a].pid < processes@[b].pid,
            forall|a: int|
                0 <= a < processes@.len() ==> {
                    let p = #[trigger] processes@[a];
                    &&& statuses@.contains_key(p.pid)
                    &&& statuses@[p.pid] matches Some(c)
                    &&& status_record(c@) == Ok::<_, Seq<char>>(process_fields(p))
                    &&& p.uid == target_uid
                    &&& exists|t: int| 0 <= t < i && ks@[t] == p.pid
                },
            forall|t: int|
                0 <= t < i ==> (statuses@[#[trigger] ks@[t]] matches Some(c) && kept_status(
                    c@,
                    ks@[t],
                    target_uid,
                )) ==> exists|a: int| 0 <= a < processes@.len() && processes@[a].pid == ks@[t],
            missing.finite(),
            missing.len() <= i,
            unreadable == missing.len(),
            forall|k: u32|
                missing.contains(k) <==> (exists|t: int| 0 <= t < i && ks@[t] == k) && statuses@[k] is None,
        decreases ks@.len() - i,
    {
        let pid = ks[i];
        let ghost before = processes@;
        assert(ks@.contains(pid));
        match statuses.get(&pid) {
            None => {
                assert(false);
            },
            Some(None) => {
                proof {
                    assert(!missing.contains(pid)) by {
                        if missing.contains(pid) {
                            let t = choose|t: int| 0 <= t < i && ks@[t] == pid;
                            assert(ks@[t] < ks@[i as int]);
                        }
                    }
                    missing = missing.insert(pid);
                }
                unreadable = unreadable + 1;
            },
            Some(Some(contents)) => {
                match parse_status(contents.as_str()) {
                    Ok(process) => {
                        if process.pid == pid && process.uid == target_uid {
                            proof {
                                assert forall|a: int| 0 <= a < processes@.len() implies
                                    #[trigger] processes@[a].pid < pid by {
                                    let t = choose|t: int| 0 <= t < i && ks@[t] == processes@[a].pid;
                                    assert(ks@[t] < ks@[i as int]);
                                }
                            }
                            processes.push(process);
                            assert(processes@[processes@.len() - 1].pid == ks@[i as int]);
                        }
                    },
                    Err(_) => {},
                }
            },
        }
        proof {
            assert forall|t: int|
                0 <= t < i + 1 && (statuses@[#[trigger] ks@[t]] matches Some(c) && kept_status(
                    c@,
                    ks@[t],
                    target_uid,
                )) implies exists|a: int| 0 <= a < processes@.len() && processes@[a].pid == ks@[t] by {
                if t < i {
                    let a = choose|a: int| 0 <= a < before.len() && before[a].pid == ks@[t];
                    assert(processes@[a] == before[a]);
                } else {
                    assert(processes@[processes@.len() - 1].pid == ks@[t]);
                }
            }
            assert forall|k: u32|
                missing.contains(k) <==> (exists|t: int| 0 <= t < i + 1 && ks@[t] == k) && statuses@[k] is None by {
                if (exists|t: int| 0 <= t < i + 1 && ks@[t] == k) && statuses@[k] is None {
                    let t = choose|t: int| 0 <= t < i + 1 && ks@[t] == k;
                    if t < i {
                        assert(exists|t: int| 0 <= t < i && ks@[t] == k);
                    }
                }
            }
        }
        i = i + 1;
    }
    proof {
        assert(missing =~= unreadable_pids(statuses@)) by {
            assert forall|k: u32| unreadable_pids(statuses@).contains(k) implies missing.contains(k) by {
                assert(ks@.contains(k));
                let t = choose|t: int| 0 <= t < ks@.len() && ks@[t] == k;
            }
            assert forall|k: u32| missing.contains(k) implies unreadable_pids(statuses@).contains(k) by {
                let t = choose|t: int| 0 <= t < ks@.len() && ks@[t] == k;
                assert(ks@.contains(k));
            }
        }
        assert forall|pid: u32|
            #[trigger] statuses@.contains_key(pid) && (statuses@[pid] matches Some(c) && kept_status(
                c@,
                pid,
                target_uid,
            )) implies exists|a: int| 0 <= a < processes@.len() && processes@[a].pid == pid by {
            assert(ks@.contains(pid));
            let t = choose|t: int| 0 <= t < ks@.len() && ks@[t] == pid;
        }
    }
    ScanReport { processes, unreadable_statuses: unreadable }
}

/// Whether `s` holds no line feed, as one line of a file.
pub open spec fn no_line_feed(s: Seq<char>) -> bool {
    forall|i: int| 0 <= i < s.len() ==> s[i] != '\n'
}

/// A status file of four lines: the name, the PID, the parent PID and the
/// UIDs, each after its key.
pub open spec fn four_line_status(
    name: Seq<char>,
    pid: Seq<char>,
    ppid: Seq<char>,
    uid: Seq<char>,
) -> Seq<char> {
    ("Name:"@ + name) + "\n"@ + ("Pid:"@ + pid) + "\n"@ + ("PPid:"@ + ppid) + "\n"@ + ("Uid:"@
        + uid) + "\n"@
}

/// A line as `str::lines` gives it, without a carriage return at its end.
spec fn without_cr(raw: Seq<char>) -> Seq<char> {
    if raw.len() > 0 && raw.last() == '\r' {
        raw.drop_last()
    } else {
        raw
    }
}

proof fn lemma_line_len_exact(s: Seq<char>, i: int, k: nat)
    requires
        0 <= i,
        i + k < s.len(),
        s[i + k] == '\n',
        forall|t: int| i <= t < i + k ==> s[t] != '\n',
    ensures
        line_len(s, i) == k,
    decreases k,
{
    if k > 0 {
        lemma_line_len_exact(s, i + 1, (k - 1) as nat);
    }
}

/// Scanning reads the line `raw` that stands at `i`, then goes on after its
/// line feed.
proof fn lemma_scan_line(s: Seq<char>, i: int, raw: Seq<char>, f: StatusFields)
    requires
        0 <= i,
        i + raw.len() < s.len(),
        s.subrange(i, i + raw.len()) == raw,
        s[i + raw.len()] == '\n',
        no_line_feed(raw),
    ensures
        status_scan(s, i, f) == match status_step(f, without_cr(raw)) {
            Ok(g) => status_scan(s, i + raw.len() + 1, g),
            Err(e) => Err(e),
        },
{
    assert forall|t: int| i <= t < i + raw.len() implies s[t] != '\n' by {
        assert(s[t] == raw[t - i]);
    }
    lemma_line_len_exact(s, i, raw.len());
    assert(line_at(s, i, i + raw.len()) == without_cr(raw));
}

/// Scanning a line at `i` that reads into `g` goes on after its line feed
/// with `g`.
proof fn lemma_scan_ok(s: Seq<char>, i: int, raw: Seq<char>, f: StatusFields, g: StatusFields)
    requires
        0 <= i,
        i + raw.len() < s.len(),
        s.subrange(i, i + raw.len()) == raw,
        s[i + raw.len()] == '\n',
        no_line_feed(raw),
        status_step(f, without_cr(raw)) == Ok::<_, Seq<char>>(g),
    ensures
        status_scan(s, i, f) == status_scan(s, i + raw.len() + 1, g),
{
    lemma_scan_line(s, i, raw, f);
}

/// A key and its value, as one line without its carriage return.
proof fn lemma_key_line(key: Seq<char>, v: Seq<char>)
    requires
        key.len() > 0,
        key.last() != '\r',
    ensures
        without_cr(key + v) == key + without_cr(v),
        after(key + without_cr(v), key) == without_cr(v),
        starts_with(key + without_cr(v), key),
{
    if v.len() > 0 && v.last() == '\r' {
        assert((key + v).drop_last() =~= key + v.drop_last());
    } else if v.len() == 0 {
        assert(key + v =~= key);
    }
    assert(after(key + without_cr(v), key) =~= without_cr(v));
    assert((key + without_cr(v)).subrange(0, key.len() as int) =~= key);
}

proof fn lemma_trim_start_drop_space(x: Seq<char>)
    requires
        x.len() > 0,
        is_space(x.last()),
    ensures
        trim_start(x).len() == 0 ==> trim_start(x.drop_last()).len() == 0,
        trim_start(x).len() > 0 ==> trim_start(x).len() >= 2 && !is_space(trim_start(x)[0])
            && trim_start(x.drop_last()) == trim_start(x).drop_last() && trim_start(x).last()
            == x.last(),
    decreases x.len(),
{
    if is_space(x[0]) {
        if x.len() > 1 {
            lemma_trim_start_drop_space(x.drop_first());
            assert(x.drop_last().drop_first() =~= x.drop_first().drop_last());
        } else {
            assert(x.drop_first().len() == 0);
        }
    }
}

/// A trailing whitespace character changes neither the trimmed text nor the
/// first word.
proof fn lemma_drop_trailing_space(x: Seq<char>)
    requires
        x.len() > 0,
        is_space(x.last()),
    ensures
        trim(x.drop_last()) == trim(x),
        first_word(x.drop_last()) == first_word(x),
{
    lemma_trim_start_drop_space(x);
    let t = trim_start(x);
    if t.len() > 0 {
        assert(t.last() == x.last());
        assert(trim_end(t) == trim_end(t.drop_last()));
        lemma_leading_word_drop_space(t);
    }
}

proof fn lemma_leading_word_drop_space(t: Seq<char>)
    requires
        t.len() > 0,
        is_space(t.last()),
    ensures
        leading_word(t.drop_last()) == leading_word(t),
    decreases t.len(),
{
    if !is_space(t[0]) {
        lemma_leading_word_drop_space(t.drop_first());
        assert(t.drop_last().drop_first() =~= t.drop_first().drop_last());
    }
}

/// A value, read without its carriage return, trims and splits as before.
proof fn lemma_without_cr_value(v: Seq<char>)
    ensures
        trim(without_cr(v)) == trim(v),
        first_word(without_cr(v)) == first_word(v),
{
    if v.len() > 0 && v.last() == '\r' {
        assert(is_space('\r'));
        lemma_drop_trailing_space(v);
    }
}

/// The four lines of a status file, each followed by its line feed.
proof fn lemma_four_lines_layout(l1: Seq<char>, l2: Seq<char>, l3: Seq<char>, l4: Seq<char>)
    ensures
        ({
            let s = l1 + "\n"@ + l2 + "\n"@ + l3 + "\n"@ + l4 + "\n"@;
            let a2: int = l1.len() as int + 1;
            let a3: int = a2 + l2.len() + 1;
            let a4: int = a3 + l3.len() + 1;
            &&& s.len() == a4 + l4.len() + 1
            &&& s.subrange(0, l1.len() as int) == l1
            &&& s.subrange(a2, a2 + l2.len()) == l2
            &&& s.subrange(a3, a3 + l3.len()) == l3
            &&& s.subrange(a4, a4 + l4.len()) == l4
            &&& s[l1.len() as int] == '\n'
            &&& s[a2 + l2.len()] == '\n'
            &&& s[a3 + l3.len()] == '\n'
            &&& s[a4 + l4.len()] == '\n'
        }),
{
    reveal_strlit("\n");
    let s = l1 + "\n"@ + l2 + "\n"@ + l3 + "\n"@ + l4 + "\n"@;
    let a2: int = l1.len() as int + 1;
    let a3: int = a2 + l2.len() + 1;
    let a4: int = a3 + l3.len() + 1;
    assert(s.subrange(0, l1.len() as int) =~= l1);
    assert(s.subrange(a2, a2 + l2.len()) =~= l2);
    assert(s.subrange(a3, a3 + l3.len()) =~= l3);
    assert(s.subrange(a4, a4 + l4.len()) =~= l4);
}

/// A key without a line feed and a value without one make a line without one.
proof fn lemma_key_value_no_line_feed(key: Seq<char>, v: Seq<char>)
    requires
        no_line_feed(key),
        no_line_feed(v),
    ensures
        no_line_feed(key + v),
{
    assert forall|i: int| 0 <= i < (key + v).len() implies (key + v)[i] != '\n' by {
        if i >= key.len() {
            assert((key + v)[i] == v[i - key.len()]);
        }
    }
}

/// The four keys, and how each line of a four-line status file is read.
proof fn lemma_four_steps(
    name: Seq<char>,
    pid: Seq<char>,
    ppid: Seq<char>,
    uid: Seq<char>,
    p: u32,
    pp: u32,
    u: u32,
)
    requires
        parse_u32(trim(pid)) == Some(p),
        parse_u32(trim(ppid)) == Some(pp),
        first_word(uid) matches Some(w) && parse_u32(w) == Some(u),
    ensures
        no_line_feed("Name:"@),
        no_line_feed("Pid:"@),
        no_line_feed("PPid:"@),
        no_line_feed("Uid:"@),
        status_step(StatusFields { name: None, pid: None, ppid: None, uid: None }, without_cr("Name:"@ + name))
            == Ok::<_, Seq<char>>(StatusFields { name: Some(trim(name)), pid: None, ppid: None, uid: None }),
        status_step(StatusFields { name: Some(trim(name)), pid: None, ppid: None, uid: None }, without_cr("Pid:"@ + pid))
            == Ok::<_, Seq<char>>(StatusFields { name: Some(trim(name)), pid: Some(p), ppid: None, uid: None }),
        status_step(StatusFields { name: Some(trim(name)), pid: Some(p), ppid: None, uid: None }, without_cr("PPid:"@ + ppid))
            == Ok::<_, Seq<char>>(StatusFields { name: Some(trim(name)), pid: Some(p), ppid: Some(pp), uid: None }),
        status_step(StatusFields { name: Some(trim(name)), pid: Some(p), ppid: Some(pp), uid: None }, without_cr("Uid:"@ + uid))
            == Ok::<_, Seq<char>>(StatusFields { name: Some(trim(name)), pid: Some(p), ppid: Some(pp), uid: Some(u) }),
{
    reveal_strlit("Name:");
    reveal_strlit("Pid:");
    reveal_strlit("PPid:");
    reveal_strlit("Uid:");
    let kn = "Name:"@;
    let kp = "Pid:"@;
    let kq = "PPid:"@;
    let ku = "Uid:"@;
    lemma_key_line(kn, name);
    lemma_key_line(kp, pid);
    lemma_key_line(kq, ppid);
    lemma_key_line(ku, uid);
    lemma_without_cr_value(name);
    lemma_without_cr_value(pid);
    lemma_without_cr_value(ppid);
    lemma_without_cr_value(uid);
    let c2 = kp + without_cr(pid);
    let c3 = kq + without_cr(ppid);
    let c4 = ku + without_cr(uid);
    assert(!starts_with(c2, kn)) by {
        if starts_with(c2, kn) {
            assert(c2.subrange(0, 5)[0] == c2[0]);
        }
    }
    assert(!starts_with(c3, kn)) by {
        if starts_with(c3, kn) {
            assert(c3.subrange(0, 5)[0] == c3[0]);
        }
    }
    assert(!starts_with(c3, kp)) by {
        if starts_with(c3, kp) {
            assert(c3.subrange(0, 4)[1] == c3[1]);
        }
    }
    assert(!starts_with(c4, kn)) by {
        if starts_with(c4, kn) {
            assert(c4.subrange(0, 5)[0] == c4[0]);
        }
    }
    assert(!starts_with(c4, kp)) by {
        if starts_with(c4, kp) {
            assert(c4.subrange(0, 4)[0] == c4[0]);
        }
    }
    assert(!starts_with(c4, kq)) by {
        if starts_with(c4, kq) {
            assert(c4.subrange(0, 5)[0] == c4[0]);
        }
    }
}

/// A status file of a name, a PID, a parent PID and a UID line, in this
/// order, reads as those values: the trimmed name, the PID and parent PID
/// as `str::parse::<u32>` reads their trimmed text, whole, and the first
/// word of the UIDs.
pub proof fn lemma_four_line_status(
    name: Seq<char>,
    pid: Seq<char>,
    ppid: Seq<char>,
    uid: Seq<char>,
    p: u32,
    pp: u32,
    u: u32,
)
    requires
        no_line_feed(name),
        no_line_feed(pid),
        no_line_feed(ppid),
        no_line_feed(uid),
        parse_u32(trim(pid)) == Some(p),
        parse_u32(trim(ppid)) == Some(pp),
        first_word(uid) matches Some(w) && parse_u32(w) == Some(u),
    ensures
        status_record(four_line_status(name, pid, ppid, uid)) == Ok::<_, Seq<char>>(
            (trim(name), p, pp, u),
        ),
{
    let l1 = "Name:"@ + name;
    let l2 = "Pid:"@ + pid;
    let l3 = "PPid:"@ + ppid;
    let l4 = "Uid:"@ + uid;
    let s = four_line_status(name, pid, ppid, uid);
    lemma_four_steps(name, pid, ppid, uid, p, pp, u);
    lemma_key_value_no_line_feed("Name:"@, name);
    lemma_key_value_no_line_feed("Pid:"@, pid);
    lemma_key_value_no_line_feed("PPid:"@, ppid);
    lemma_key_value_no_line_feed("Uid:"@, uid);
    lemma_four_lines_layout(l1, l2, l3, l4);
    let a2: int = l1.len() as int + 1;
    let a3: int = a2 + l2.len() + 1;
    let a4: int = a3 + l3.len() + 1;
    let f0 = StatusFields { name: None, pid: None, ppid: None, uid: None };
    let f1 = StatusFields { name: Some(trim(name)), pid: None, ppid: None, uid: None };
    let f2 = StatusFields { name: Some(trim(name)), pid: Some(p), ppid: None, uid: None };
    let f3 = StatusFields { name: Some(trim(name)), pid: Some(p), ppid: Some(pp), uid: None };
    let f4 = StatusFields { name: Some(trim(name)), pid: Some(p), ppid: Some(pp), uid: Some(u) };
    lemma_scan_ok(s, 0, l1, f0, f1);
    lemma_scan_ok(s, a2, l2, f1, f2);
    lemma_scan_ok(s, a3, l3, f2, f3);
    lemma_scan_ok(s, a4, l4, f3, f4);
    assert(status_scan(s, s.len() as int, f4) == Ok::<_, Seq<char>>(f4));
    assert(status_scan(s, 0, f0) == Ok::<_, Seq<char>>(f4));
}

} // verus!
