//! Per-process traffic accounting in the elevated helper: the image names of
//! running processes, the bytes each process moved since the last report, and
//! the report itself, ranked by traffic.
use crate::models::ProcessSnapshot;
use crate::process_names::{fallback_display_name, fallback_name_for, looks_like_path, path_like};
use crate::text::{chars_of, decimal, push_decimal};
use std::collections::HashMap;
use vstd::prelude::*;
use vstd::std_specs::iter::IteratorSpec;

verus! {

broadcast use {vstd::std_specs::hash::group_hash_axioms, vstd::seq_lib::group_seq_properties};

/// Bytes a process moved since the last report, and its image name once known.
#[derive(Debug, Clone)]
pub struct ProcessBucket {
    pub down_bytes: u64,
    pub up_bytes: u64,
    pub image_name: String,
}

impl Default for ProcessBucket {
    fn default() -> (r: Self)
        ensures
            bucket_view(r) == (0u64, 0u64, Seq::<char>::empty()),
    {
        ProcessBucket { down_bytes: 0, up_bytes: 0, image_name: String::new() }
    }
}

/// A bucket by its views.
pub open spec fn bucket_view(b: ProcessBucket) -> (u64, u64, Seq<char>) {
    (b.down_bytes, b.up_bytes, b.image_name@)
}

/// A map of strings by their views.
pub open spec fn strings_view(m: Map<u32, String>) -> Map<u32, Seq<char>> {
    m.map_values(|s: String| s@)
}

/// The buckets by their views.
pub open spec fn buckets_view(m: Map<u32, ProcessBucket>) -> Map<u32, (u64, u64, Seq<char>)> {
    m.map_values(|b: ProcessBucket| bucket_view(b))
}

/// What the helper knows about processes between two reports.
pub struct ProcessTable {
    /// Image name (path when known) of each running process.
    pub names: HashMap<u32, String>,
    /// Display names already worked out, by process.
    pub display_names: HashMap<u32, String>,
    /// Traffic since the last report, by process.
    pub counters: HashMap<u32, ProcessBucket>,
}

/// The event kinds of the kernel process provider that name a process.
pub open spec fn is_process_start(opcode: u8) -> bool {
    opcode == 1 || opcode == 3
}

/// The event kinds of the kernel process provider that retire a process.
pub open spec fn is_process_end(opcode: u8) -> bool {
    opcode == 2 || opcode == 4
}

/// The event kind of the TCP/IP provider for data sent.
pub open spec fn is_tcp_send(opcode: u8) -> bool {
    opcode == 10
}

/// The event kind of the TCP/IP provider for data received.
pub open spec fn is_tcp_receive(opcode: u8) -> bool {
    opcode == 11
}

/// The image names after a process event: a start names the process, except
/// that a full path is not replaced by a bare name; an end forgets it.
pub open spec fn names_after_process_event(
    names: Map<u32, Seq<char>>,
    opcode: u8,
    pid: u32,
    image_name: Option<Seq<char>>,
) -> Map<u32, Seq<char>> {
    if is_process_start(opcode) {
        match image_name {
            Some(image) => if names.contains_key(pid) && path_like(names[pid]) && !path_like(image) {
                names
            } else {
                names.insert(pid, image)
            },
            None => names,
        }
    } else if is_process_end(opcode) {
        names.remove(pid)
    } else {
        names
    }
}

/// The bucket of a process, or an empty one.
pub open spec fn bucket_or_empty(counters: Map<u32, (u64, u64, Seq<char>)>, pid: u32) -> (u64, u64, Seq<char>) {
    if counters.contains_key(pid) {
        counters[pid]
    } else {
        (0u64, 0u64, Seq::empty())
    }
}

/// Whether a TCP event is counted at all: only sends and receives of a real process.
pub open spec fn tcp_event_counted(opcode: u8, pid: u32) -> bool {
    (is_tcp_send(opcode) || is_tcp_receive(opcode)) && pid != 0
}

/// Whether adding the event's bytes keeps the byte count of its direction
/// within `u64`.
pub open spec fn tcp_event_fits(counters: Map<u32, (u64, u64, Seq<char>)>, opcode: u8, pid: u32, size: u32) -> bool {
    let b = bucket_or_empty(counters, pid);
    if is_tcp_send(opcode) {
        b.1 + size <= u64::MAX
    } else {
        b.0 + size <= u64::MAX
    }
}

/// The bucket after a counted TCP event: the bytes go to the direction of
/// the event, and an unnamed bucket takes the process's known image name.
pub open spec fn bucket_after_tcp_event(
    counters: Map<u32, (u64, u64, Seq<char>)>,
    names: Map<u32, Seq<char>>,
    opcode: u8,
    pid: u32,
    size: u32,
) -> (u64, u64, Seq<char>) {
    let b = bucket_or_empty(counters, pid);
    let down = if is_tcp_receive(opcode) { (b.0 + size) as u64 } else { b.0 };
    let up = if is_tcp_send(opcode) { (b.1 + size) as u64 } else { b.1 };
    let image = if b.2.len() == 0 && names.contains_key(pid) { names[pid] } else { b.2 };
    (down, up, image)
}

impl ProcessTable {
    /// The image names by their views.
    pub open spec fn names_view(&self) -> Map<u32, Seq<char>> {
        strings_view(self.names@)
    }

    /// The display names by their views.
    pub open spec fn display_view(&self) -> Map<u32, Seq<char>> {
        strings_view(self.display_names@)
    }

    /// The buckets by their views.
    pub open spec fn counters_view(&self) -> Map<u32, (u64, u64, Seq<char>)> {
        buckets_view(self.counters@)
    }

    /// A table that knows the given image names and nothing else.
    pub fn new(names: HashMap<u32, String>) -> (r: Self)
        ensures
            r.names_view() == strings_view(names@),
            r.display_view() == Map::<u32, Seq<char>>::empty(),
            r.counters_view() == Map::<u32, (u64, u64, Seq<char>)>::empty(),
    {
        let r = ProcessTable { names, display_names: HashMap::new(), counters: HashMap::new() };
        assert(r.display_view() =~= Map::<u32, Seq<char>>::empty());
        assert(r.counters_view() =~= Map::<u32, (u64, u64, Seq<char>)>::empty());
        r
    }

    /// Takes a kernel process event into account.
    pub fn record_process_event(&mut self, opcode: u8, pid: u32, image_name: Option<String>)
        ensures
            final(self).names_view() == names_after_process_event(
                old(self).names_view(),
                opcode,
                pid,
                crate::text::opt_chars(image_name),
            ),
            final(self).display_view() == if is_process_end(opcode) {
                old(self).display_view().remove(pid)
            } else {
                old(self).display_view()
            },
            final(self).counters_view() == old(self).counters_view(),
    {
        if opcode == 1 || opcode == 3 {
            if let Some(image_name) = image_name {
                let keep = match self.names.get(&pid) {
                    Some(current) => looks_like_path(current.as_str()) && !looks_like_path(image_name.as_str()),
                    None => false,
                };
                if !keep {
                    self.names.insert(pid, image_name);
                    proof {
                        assert(self.names_view() =~= old(self).names_view().insert(pid, image_name@));
                    }
                }
            }
        } else if opcode == 2 || opcode == 4 {
            self.names.remove(&pid);
            self.display_names.remove(&pid);
            proof {
                assert(self.names_view() =~= old(self).names_view().remove(pid));
                assert(self.display_view() =~= old(self).display_view().remove(pid));
            }
        }
    }

    /// Takes a TCP send or receive event into account. Returns `false`, and
    /// changes nothing, when the count would pass `u64::MAX`.
    pub fn record_tcp_event(&mut self, opcode: u8, pid: u32, size: u32) -> (accepted: bool)
        ensures
            accepted == (!tcp_event_counted(opcode, pid) || tcp_event_fits(old(self).counters_view(), opcode, pid, size)),
            final(self).counters_view() == if tcp_event_counted(opcode, pid) && accepted {
                old(self).counters_view().insert(
                    pid,
                    bucket_after_tcp_event(old(self).counters_view(), old(self).names_view(), opcode, pid, size),
                )
            } else {
                old(self).counters_view()
            },
            final(self).names_view() == old(self).names_view(),
            final(self).display_view() == old(self).display_view(),
    {
        if opcode != 10 && opcode != 11 {
            return true;
        }
        if pid == 0 {
            return true;
        }
        let (down_bytes, up_bytes, image_name) = match self.counters.get(&pid) {
            Some(bucket) => (bucket.down_bytes, bucket.up_bytes, bucket.image_name.clone()),
            None => (0u64, 0u64, String::new()),
        };
        assert(bucket_or_empty(old(self).counters_view(), pid) == (down_bytes, up_bytes, image_name@));
        let (down_bytes, up_bytes) = if opcode == 10 {
            if up_bytes > u64::MAX - size as u64 {
                return false;
            }
            (down_bytes, up_bytes + size as u64)
        } else {
            if down_bytes > u64::MAX - size as u64 {
                return false;
            }
            (down_bytes + size as u64, up_bytes)
        };
        let image_name = if image_name.as_str().unicode_len() == 0 {
            match self.names.get(&pid) {
                Some(name) => name.clone(),
                None => image_name,
            }
        } else {
            image_name
        };
        let bucket = ProcessBucket { down_bytes, up_bytes, image_name };
        self.counters.insert(pid, bucket);
        proof {
            assert(self.counters_view() =~= old(self).counters_view().insert(
                pid,
                bucket_after_tcp_event(old(self).counters_view(), old(self).names_view(), opcode, pid, size),
            ));
        }
        true
    }
}


/// Code-point order of character sequences, the order of `String`'s `Ord`
/// (UTF-8 byte order and code-point order agree): a proper prefix comes first.
pub open spec fn lex_le(a: Seq<char>, b: Seq<char>) -> bool
    decreases a.len(),
{
    if a.len() == 0 {
        true
    } else if b.len() == 0 {
        false
    } else if a[0] != b[0] {
        (a[0] as u32) < (b[0] as u32)
    } else {
        lex_le(a.drop_first(), b.drop_first())
    }
}

proof fn lemma_lex_le_total(a: Seq<char>, b: Seq<char>)
    ensures
        lex_le(a, b) || lex_le(b, a),
    decreases a.len(),
{
    if a.len() > 0 && b.len() > 0 && a[0] == b[0] {
        lemma_lex_le_total(a.drop_first(), b.drop_first());
    } else if a.len() > 0 && b.len() > 0 {
        vstd::utf8::char_u32_cast(a[0], a[0] as u32);
        vstd::utf8::char_u32_cast(b[0], b[0] as u32);
    }
}

proof fn lemma_lex_le_transitive(a: Seq<char>, b: Seq<char>, c: Seq<char>)
    requires
        lex_le(a, b),
        lex_le(b, c),
    ensures
        lex_le(a, c),
    decreases a.len(),
{
    if a.len() > 0 && b.len() > 0 && c.len() > 0 && a[0] == b[0] && b[0] == c[0] {
        lemma_lex_le_transitive(a.drop_first(), b.drop_first(), c.drop_first());
    } else if a.len() > 0 && b.len() > 0 && c.len() > 0 {
        vstd::utf8::char_u32_cast(a[0], a[0] as u32);
        vstd::utf8::char_u32_cast(b[0], b[0] as u32);
        vstd::utf8::char_u32_cast(c[0], c[0] as u32);
    }
}

proof fn lemma_lex_le_skip(a: Seq<char>, b: Seq<char>, i: int)
    requires
        0 <= i <= a.len(),
        i <= b.len(),
        forall|j: int| 0 <= j < i ==> a[j] == b[j],
    ensures
        lex_le(a, b) == lex_le(a.skip(i), b.skip(i)),
    decreases i,
{
    if i > 0 {
        lemma_lex_le_skip(a.drop_first(), b.drop_first(), i - 1);
        assert(a.drop_first().skip(i - 1) =~= a.skip(i));
        assert(b.drop_first().skip(i - 1) =~= b.skip(i));
    } else {
        assert(a.skip(0) =~= a);
        assert(b.skip(0) =~= b);
    }
}

/// `lex_le` on character vectors.
fn chars_lex_le(a: &Vec<char>, b: &Vec<char>) -> (r: bool)
    ensures
        r == lex_le(a@, b@),
{
    let mut i: usize = 0;
    while i < a.len() && i < b.len() && a[i] == b[i]
        invariant
            i <= a@.len(),
            i <= b@.len(),
            forall|j: int| 0 <= j < i ==> a@[j] == b@[j],
        decreases a@.len() - i,
    {
        i = i + 1;
    }
    proof {
        lemma_lex_le_skip(a@, b@, i as int);
    }
    if i == a.len() {
        true
    } else if i == b.len() {
        false
    } else {
        (a[i] as u32) < (b[i] as u32)
    }
}

/// Whether the report may list `a` before `b`: more download first, then
/// more upload, then display names in order.
pub open spec fn ranks_before(a: ProcessSnapshot, b: ProcessSnapshot) -> bool {
    a.down_bps > b.down_bps || (a.down_bps == b.down_bps && (a.up_bps > b.up_bps || (a.up_bps
        == b.up_bps && lex_le(a.display_name@, b.display_name@))))
}

/// Whether every snapshot may come before every later one.
pub open spec fn ranked(v: Seq<ProcessSnapshot>) -> bool {
    forall|i: int, j: int| 0 <= i < j < v.len() ==> ranks_before(#[trigger] v[i], #[trigger] v[j])
}

/// Whether no two snapshots are of the same process.
pub open spec fn distinct_pids(v: Seq<ProcessSnapshot>) -> bool {
    forall|i: int, j: int| 0 <= i < j < v.len() ==> #[trigger] v[i].pid != #[trigger] v[j].pid
}

proof fn lemma_ranks_before_total(a: ProcessSnapshot, b: ProcessSnapshot)
    ensures
        ranks_before(a, b) || ranks_before(b, a),
{
    lemma_lex_le_total(a.display_name@, b.display_name@);
}

proof fn lemma_ranks_before_transitive(a: ProcessSnapshot, b: ProcessSnapshot, c: ProcessSnapshot)
    requires
        ranks_before(a, b),
        ranks_before(b, c),
    ensures
        ranks_before(a, c),
{
    if a.down_bps == b.down_bps && b.down_bps == c.down_bps && a.up_bps == b.up_bps && b.up_bps == c.up_bps {
        lemma_lex_le_transitive(a.display_name@, b.display_name@, c.display_name@);
    }
}

fn ranks_before_exec(a: &ProcessSnapshot, b: &ProcessSnapshot) -> (r: bool)
    ensures
        r == ranks_before(*a, *b),
{
    if a.down_bps != b.down_bps {
        a.down_bps > b.down_bps
    } else if a.up_bps != b.up_bps {
        a.up_bps > b.up_bps
    } else {
        chars_lex_le(&chars_of(a.display_name.as_str()), &chars_of(b.display_name.as_str()))
    }
}

/// Inserts `x` into a ranked list of other processes, after every snapshot
/// that may come before it.
fn insert_ranked(sorted: &mut Vec<ProcessSnapshot>, x: ProcessSnapshot) -> (pos: usize)
    requires
        ranked(old(sorted)@),
        distinct_pids(old(sorted)@),
        forall|k: int| 0 <= k < old(sorted)@.len() ==> #[trigger] old(sorted)@[k].pid != x.pid,
    ensures
        pos <= old(sorted)@.len(),
        final(sorted)@ == old(sorted)@.insert(pos as int, x),
        ranked(final(sorted)@),
        distinct_pids(final(sorted)@),
{
    let ghost old_sorted = sorted@;
    let mut pos: usize = 0;
    while pos < sorted.len() && ranks_before_exec(&sorted[pos], &x)
        invariant
            pos <= sorted@.len(),
            sorted@ == old_sorted,
            forall|k: int| 0 <= k < pos ==> ranks_before(#[trigger] sorted@[k], x),
        decreases sorted@.len() - pos,
    {
        pos = pos + 1;
    }
    proof {
        if pos < sorted@.len() {
            lemma_ranks_before_total(sorted@[pos as int], x);
        }
    }
    sorted.insert(pos, x);
    proof {
        let s = sorted@;
        assert forall|a: int, b: int| 0 <= a < b < s.len() implies ranks_before(#[trigger] s[a], #[trigger] s[b]) by {
            if b < pos {
            } else if a < pos && b == pos {
            } else if a < pos && b > pos {
                assert(s[b] == old_sorted[b - 1]);
                lemma_ranks_before_transitive(s[a], x, old_sorted[pos as int]);
                if b - 1 > pos {
                    lemma_ranks_before_transitive(s[a], old_sorted[pos as int], old_sorted[b - 1]);
                }
            } else if a == pos {
                assert(s[b] == old_sorted[b - 1]);
                if b - 1 > pos {
                    lemma_ranks_before_transitive(x, old_sorted[pos as int], old_sorted[b - 1]);
                }
            } else {
                assert(s[a] == old_sorted[a - 1]);
                assert(s[b] == old_sorted[b - 1]);
            }
        }
        assert forall|a: int, b: int| 0 <= a < b < s.len() implies #[trigger] s[a].pid != #[trigger] s[b].pid by {
            if b < pos {
            } else if a < pos && b == pos {
            } else if a < pos && b > pos {
                assert(s[b] == old_sorted[b - 1]);
            } else if a == pos {
                assert(s[b] == old_sorted[b - 1]);
            } else {
                assert(s[a] == old_sorted[a - 1]);
                assert(s[b] == old_sorted[b - 1]);
            }
        }
    }
    pos
}

/// Orders snapshots of distinct processes by traffic, keeping each one. The
/// ghost results map each output position to its input position and back.
fn rank_snapshots(v: Vec<ProcessSnapshot>) -> (r: (Vec<ProcessSnapshot>, Ghost<Seq<int>>, Ghost<Seq<int>>))
    requires
        distinct_pids(v@),
    ensures
        r.0@.len() == v@.len(),
        r.1@.len() == r.0@.len(),
        forall|k: int| 0 <= k < r.0@.len() ==> 0 <= #[trigger] r.1@[k] < v@.len() && r.0@[k] == v@[r.1@[k]],
        r.2@.len() == v@.len(),
        forall|j: int| 0 <= j < v@.len() ==> 0 <= #[trigger] r.2@[j] < r.0@.len() && r.0@[r.2@[j]] == v@[j],
        distinct_pids(r.0@),
        ranked(r.0@),
{
    let mut sorted: Vec<ProcessSnapshot> = Vec::new();
    let ghost input = v@;
    let mut rest = v;
    let n = rest.len();
    let ghost mut from: Seq<int> = Seq::empty();
    let ghost mut to: Seq<int> = Seq::new(n as nat, |j: int| 0int);
    // Take elements from the back so that `rest` shrinks without shifting.
    while rest.len() > 0
        invariant
            input.len() == n,
            rest@ == input.take(rest@.len() as int),
            sorted@.len() + rest@.len() == n,
            distinct_pids(input),
            from.len() == sorted@.len(),
            forall|k: int| 0 <= k < sorted@.len() ==> rest@.len() <= #[trigger] from[k] < n && sorted@[k] == input[from[k]],
            to.len() == n,
            forall|j: int| rest@.len() <= j < n ==> 0 <= #[trigger] to[j] < sorted@.len() && sorted@[to[j]] == input[j],
            distinct_pids(sorted@),
            ranked(sorted@),
        decreases rest@.len(),
    {
        let ghost old_sorted = sorted@;
        let ghost idx = rest@.len() - 1;
        let x = rest.pop().unwrap();
        assert(x == input[idx]);
        assert(rest@ =~= input.take(idx));
        proof {
            assert forall|k: int| 0 <= k < old_sorted.len() implies #[trigger] old_sorted[k].pid != x.pid by {
                assert(input[idx].pid != input[from[k]].pid);
            }
        }
        let pos = insert_ranked(&mut sorted, x);
        proof {
            let old_from = from;
            let old_to = to;
            from = old_from.insert(pos as int, idx);
            to = Seq::new(n as nat, |j: int| if j == idx { pos as int } else if old_to[j] >= pos { old_to[j] + 1 } else { old_to[j] });
            assert forall|k: int| 0 <= k < sorted@.len() implies idx <= #[trigger] from[k] < n && sorted@[k] == input[from[k]] by {
                if k < pos {
                    assert(from[k] == old_from[k]);
                } else if k > pos {
                    assert(from[k] == old_from[k - 1]);
                }
            }
            assert forall|j: int| idx <= j < n implies 0 <= #[trigger] to[j] < sorted@.len() && sorted@[to[j]] == input[j] by {
                if j != idx {
                    assert(old_sorted[old_to[j]] == input[j]);
                }
            }
        }
    }
    (sorted, Ghost(from), Ghost(to))
}


/// Whether a process moved any bytes since the last report.
pub open spec fn is_active(counters: Map<u32, (u64, u64, Seq<char>)>, pid: u32) -> bool {
    counters.contains_key(pid) && !(counters[pid].0 == 0 && counters[pid].1 == 0)
}

/// Whether a process's byte count cannot be reported in bits within `u64`.
pub open spec fn rate_overflows(counters: Map<u32, (u64, u64, Seq<char>)>, pid: u32) -> bool {
    counters[pid].0 > u64::MAX / 8 || counters[pid].1 > u64::MAX / 8
}

/// Whether some active process's count cannot be reported.
pub open spec fn some_rate_overflows(counters: Map<u32, (u64, u64, Seq<char>)>) -> bool {
    exists|pid: u32| #[trigger] is_active(counters, pid) && rate_overflows(counters, pid)
}

/// The image name reported for a process: the one its bucket learned, else
/// the one the name table knows, else `pid-` and its number.
pub open spec fn reported_image(
    counters: Map<u32, (u64, u64, Seq<char>)>,
    names: Map<u32, Seq<char>>,
    pid: u32,
) -> Seq<char> {
    if counters[pid].2.len() > 0 {
        counters[pid].2
    } else if names.contains_key(pid) {
        names[pid]
    } else {
        "pid-"@ + decimal(pid as nat)
    }
}

/// Whether `s` is the report line of an active process, with the display
/// name the table keeps for it and its bytes counted in bits.
pub open spec fn reports(
    counters: Map<u32, (u64, u64, Seq<char>)>,
    names: Map<u32, Seq<char>>,
    display: Map<u32, Seq<char>>,
    s: ProcessSnapshot,
) -> bool {
    &&& is_active(counters, s.pid)
    &&& s.image_name@ == reported_image(counters, names, s.pid)
    &&& display.contains_key(s.pid)
    &&& s.display_name@ == display[s.pid]
    &&& s.down_bps == counters[s.pid].0 * 8
    &&& s.up_bps == counters[s.pid].1 * 8
}

/// The display names after a report: those known stay, and every active
/// process without one gets the fallback name of its reported image.
pub open spec fn display_after_report(
    before: Map<u32, Seq<char>>,
    counters: Map<u32, (u64, u64, Seq<char>)>,
    names: Map<u32, Seq<char>>,
    after: Map<u32, Seq<char>>,
) -> bool {
    &&& forall|pid: u32| #[trigger] after.contains_key(pid) <==> (before.contains_key(pid) || is_active(counters, pid))
    &&& forall|pid: u32| #[trigger] before.contains_key(pid) ==> after[pid] == before[pid]
    &&& forall|pid: u32|
        !before.contains_key(pid) && #[trigger] is_active(counters, pid) ==> fallback_name_for(
            reported_image(counters, names, pid),
            after[pid],
        )
}

proof fn lemma_iter_keys_distinct<V>(m: Map<u32, V>, s: Seq<(&u32, &V)>)
    requires
        s.no_duplicates(),
        forall|j: int| 0 <= j < s.len() ==> m.contains_key(*s[j].0) && m[*s[j].0] == *s[j].1,
    ensures
        forall|i: int, j: int| 0 <= i < j < s.len() ==> *(#[trigger] s[i]).0 != *(#[trigger] s[j]).0,
{
    assert forall|i: int, j: int| 0 <= i < j < s.len() implies *(#[trigger] s[i]).0 != *(#[trigger] s[j]).0 by {
        if *s[i].0 == *s[j].0 {
            assert(s[i] == s[j]);
        }
    }
}

/// Whether some active bucket's count cannot be reported.
fn find_rate_overflow(counters: &HashMap<u32, ProcessBucket>) -> (r: bool)
    ensures
        r == some_rate_overflows(buckets_view(counters@)),
{
    let ghost view = buckets_view(counters@);
    let ghost s = counters.iter().remaining();
    for (pid, bucket) in it: counters.iter()
        invariant
            it.seq() == s,
            view == buckets_view(counters@),
            forall|j: int| 0 <= j < s.len() ==> counters@.contains_key(*s[j].0) && counters@[*s[j].0] == *s[j].1,
            forall|k: u32| counters@.contains_key(k) ==> s.contains((&k, &counters@[k])),
            forall|j: int| 0 <= j < it.index() ==> !(is_active(view, *s[j].0) && rate_overflows(view, *s[j].0)),
    {
        if (bucket.down_bytes != 0 || bucket.up_bytes != 0) && (bucket.down_bytes > u64::MAX / 8 || bucket.up_bytes
            > u64::MAX / 8) {
            assert(is_active(view, *pid) && rate_overflows(view, *pid));
            return true;
        }
    }
    proof {
        if some_rate_overflows(view) {
            let p = choose|p: u32| #[trigger] is_active(view, p) && rate_overflows(view, p);
            assert(s.contains((&p, &counters@[p])));
            let j = choose|j: int| 0 <= j < s.len() && s[j] == (&p, &counters@[p]);
            assert(*s[j].0 == p);
        }
    }
    false
}


impl ProcessTable {
    /// The report lines of all active processes, unranked; display names of
    /// processes that have none yet are filled in with the fallback name.
    fn collect_reports(&mut self) -> (v: Vec<ProcessSnapshot>)
        requires
            !some_rate_overflows(old(self).counters_view()),
        ensures
            final(self).counters_view() == old(self).counters_view(),
            final(self).names_view() == old(self).names_view(),
            display_after_report(
                old(self).display_view(),
                old(self).counters_view(),
                old(self).names_view(),
                final(self).display_view(),
            ),
            forall|k: int|
                0 <= k < v@.len() ==> reports(
                    old(self).counters_view(),
                    old(self).names_view(),
                    final(self).display_view(),
                    #[trigger] v@[k],
                ),
            forall|pid: u32| #[trigger] is_active(old(self).counters_view(), pid) ==> exists|k: int| 0 <= k < v@.len() && v@[k].pid == pid,
            distinct_pids(v@),
    {
        let ghost cv = self.counters_view();
        let ghost nv = self.names_view();
        let ghost dv0 = self.display_view();
        let ghost s = self.counters.iter().remaining();
        let mut out: Vec<ProcessSnapshot> = Vec::new();
        let ghost mut src: Seq<int> = Seq::empty();
        let ghost mut at: Seq<int> = Seq::empty();
        let ghost mut seen: Set<u32> = Set::empty();
        for (pid, bucket) in it: self.counters.iter()
            invariant
                it.seq() == s,
                cv == buckets_view(self.counters@),
                nv == self.names_view(),
                !some_rate_overflows(cv),
                forall|j: int| 0 <= j < s.len() ==> self.counters@.contains_key(*s[j].0) && self.counters@[*s[j].0] == *s[j].1,
                forall|k: u32| self.counters@.contains_key(k) ==> s.contains((&k, &self.counters@[k])),
                s.no_duplicates(),
                forall|j: int| 0 <= j < it.index() ==> seen.contains(#[trigger] *s[j].0),
                forall|p: u32| seen.contains(p) ==> exists|j: int| 0 <= j < it.index() && *s[j].0 == p,
                forall|p: u32| #[trigger] self.display_view().contains_key(p) <==> (dv0.contains_key(p) || (seen.contains(p) && is_active(cv, p))),
                forall|p: u32| #[trigger] dv0.contains_key(p) ==> self.display_view()[p] == dv0[p],
                forall|p: u32|
                    !dv0.contains_key(p) && seen.contains(p) && #[trigger] is_active(cv, p) ==> fallback_name_for(
                        reported_image(cv, nv, p),
                        self.display_view()[p],
                    ),
                src.len() == out@.len(),
                forall|k: int| 0 <= k < out@.len() ==> 0 <= #[trigger] src[k] < it.index() && out@[k].pid == *s[src[k]].0,
                forall|a: int, b: int| 0 <= a < b < out@.len() ==> #[trigger] src[a] < #[trigger] src[b],
                at.len() == it.index(),
                forall|j: int| 0 <= j < it.index() && is_active(cv, *s[j].0) ==> 0 <= #[trigger] at[j] < out@.len() && out@[at[j]].pid == *s[j].0,
                forall|k: int| 0 <= k < out@.len() ==> reports(cv, nv, self.display_view(), #[trigger] out@[k]),
        {
            let ghost j = it.index();
            assert(*s[j].0 == *pid && *s[j].1 == *bucket);
            let ghost before_display = self.display_view();
            proof {
                lemma_iter_keys_distinct(self.counters@, s);
                if seen.contains(*pid) {
                    let j2 = choose|j2: int| 0 <= j2 < j && *s[j2].0 == *pid;
                    assert(*s[j2].0 != *s[j].0);
                }
            }
            if bucket.down_bytes == 0 && bucket.up_bytes == 0 {
                proof {
                    at = at.push(0);
                }
            } else {
                let image_name: String = if bucket.image_name.as_str().unicode_len() > 0 {
                    bucket.image_name.clone()
                } else {
                    match self.names.get(pid) {
                        Some(name) => name.clone(),
                        None => {
                            let mut text = String::from_str("pid-");
                            push_decimal(&mut text, *pid as u128);
                            text
                        },
                    }
                };
                assert(image_name@ == reported_image(cv, nv, *pid));
                let display_name: String = match self.display_names.get(pid) {
                    Some(name) => name.clone(),
                    None => {
                        let name = fallback_display_name(image_name.as_str());
                        self.display_names.insert(*pid, name.clone());
                        proof {
                            assert(self.display_view() =~= before_display.insert(*pid, name@));
                            assert(fallback_name_for(reported_image(cv, nv, *pid), name@));
                        }
                        name
                    },
                };
                proof {
                    assert(self.display_view().contains_key(*pid));
                    if before_display.contains_key(*pid) {
                        assert(self.display_view() == before_display);
                    } else {
                        assert(self.display_view() == before_display.insert(*pid, display_name@));
                        assert(fallback_name_for(reported_image(cv, nv, *pid), display_name@));
                    }
                    assert forall|p: u32|
                        !dv0.contains_key(p) && seen.insert(*pid).contains(p) && #[trigger] is_active(cv, p) implies fallback_name_for(
                            reported_image(cv, nv, p),
                            self.display_view()[p],
                        ) by {
                        if p != *pid {
                            assert(self.display_view()[p] == before_display[p]);
                        }
                    }
                }
                assert(is_active(cv, *pid));
                assert(!rate_overflows(cv, *pid));
                let report = ProcessSnapshot {
                    pid: *pid,
                    image_name,
                    display_name,
                    down_bps: bucket.down_bytes * 8,
                    up_bps: bucket.up_bytes * 8,
                };
                out.push(report);
                proof {
                    src = src.push(j);
                    at = at.push(out@.len() - 1);
                }
            }
            proof {
                seen = seen.insert(*pid);
            }
        }
        proof {
            lemma_iter_keys_distinct(self.counters@, s);
            assert forall|a: int, b: int| 0 <= a < b < out@.len() implies #[trigger] out@[a].pid != #[trigger] out@[b].pid by {
                assert(src[a] < src[b]);
                assert(*s[src[a]].0 != *s[src[b]].0);
            }
            assert forall|pid: u32| #[trigger] is_active(cv, pid) implies exists|k: int| 0 <= k < out@.len() && out@[k].pid == pid by {
                assert(s.contains((&pid, &self.counters@[pid])));
                let j = choose|j: int| 0 <= j < s.len() && s[j] == (&pid, &self.counters@[pid]);
                assert(out@[at[j]].pid == pid);
            }
        }
        out
    }
}

/// Whether `v` is the report of a table: one line per process that moved
/// bytes, each with its reported image name, its display name in `display`
/// and its bytes counted in bits, ranked by traffic.
pub open spec fn is_report(
    counters: Map<u32, (u64, u64, Seq<char>)>,
    names: Map<u32, Seq<char>>,
    display: Map<u32, Seq<char>>,
    v: Seq<ProcessSnapshot>,
) -> bool {
    &&& forall|k: int| 0 <= k < v.len() ==> reports(counters, names, display, #[trigger] v[k])
    &&& forall|pid: u32| #[trigger] is_active(counters, pid) ==> exists|k: int| 0 <= k < v.len() && v[k].pid == pid
    &&& distinct_pids(v)
    &&& ranked(v)
}

/// Once the counters are drained, the next report is empty: a report of
/// counters that hold nothing has no line.
pub proof fn lemma_report_after_drain_is_empty(
    names: Map<u32, Seq<char>>,
    display: Map<u32, Seq<char>>,
    v: Seq<ProcessSnapshot>,
)
    requires
        is_report(Map::<u32, (u64, u64, Seq<char>)>::empty(), names, display, v),
    ensures
        v.len() == 0,
{
    if v.len() > 0 {
        assert(reports(Map::<u32, (u64, u64, Seq<char>)>::empty(), names, display, v[0]));
    }
}

/// A ranked report lists download rates from highest to lowest, and among
/// equal download rates, upload rates from highest to lowest; among equal
/// rates, display names come in code-point order.
pub proof fn lemma_ranked_by_rates(v: Seq<ProcessSnapshot>)
    requires
        ranked(v),
    ensures
        forall|i: int, j: int|
            0 <= i < j < v.len() ==> (#[trigger] v[i]).down_bps >= (#[trigger] v[j]).down_bps && (v[i].down_bps
                == v[j].down_bps ==> v[i].up_bps >= v[j].up_bps),
        forall|i: int, j: int|
            0 <= i < j < v.len() && (#[trigger] v[i]).down_bps == (#[trigger] v[j]).down_bps && v[i].up_bps == v[j].up_bps
                ==> lex_le(v[i].display_name@, v[j].display_name@),
{
    assert forall|i: int, j: int| 0 <= i < j < v.len() implies (#[trigger] v[i]).down_bps >= (#[trigger] v[j]).down_bps
        && (v[i].down_bps == v[j].down_bps ==> v[i].up_bps >= v[j].up_bps) by {
        assert(ranks_before(v[i], v[j]));
    }
    assert forall|i: int, j: int|
        0 <= i < j < v.len() && (#[trigger] v[i]).down_bps == (#[trigger] v[j]).down_bps && v[i].up_bps == v[j].up_bps
            implies lex_le(v[i].display_name@, v[j].display_name@) by {
        assert(ranks_before(v[i], v[j]));
    }
}

impl ProcessTable {
    /// Empties the traffic counters and reports what they held, ranked by
    /// traffic; display names missing for reported processes get the fallback
    /// name. Gives `None`, and changes nothing, when some active count in bits
    /// would pass `u64::MAX`.
    pub fn drain(&mut self) -> (r: Option<Vec<ProcessSnapshot>>)
        ensures
            match r {
                None => {
                    &&& some_rate_overflows(old(self).counters_view())
                    &&& final(self).counters_view() == old(self).counters_view()
                    &&& final(self).names_view() == old(self).names_view()
                    &&& final(self).display_view() == old(self).display_view()
                },
                Some(v) => {
                    &&& !some_rate_overflows(old(self).counters_view())
                    &&& final(self).counters_view() == Map::<u32, (u64, u64, Seq<char>)>::empty()
                    &&& final(self).names_view() == old(self).names_view()
                    &&& display_after_report(
                        old(self).display_view(),
                        old(self).counters_view(),
                        old(self).names_view(),
                        final(self).display_view(),
                    )
                    &&& is_report(old(self).counters_view(), old(self).names_view(), final(self).display_view(), v@)
                    &&& forall|i: int, j: int|
                        0 <= i < j < v@.len() ==> (#[trigger] v@[i]).down_bps >= (#[trigger] v@[j]).down_bps && (v@[i].down_bps
                            == v@[j].down_bps ==> v@[i].up_bps >= v@[j].up_bps)
                },
            },
    {
        if find_rate_overflow(&self.counters) {
            return None;
        }
        let collected = self.collect_reports();
        let ghost cv = old(self).counters_view();
        let ghost nv = old(self).names_view();
        self.counters.clear();
        proof {
            assert(self.counters_view() =~= Map::<u32, (u64, u64, Seq<char>)>::empty());
        }
        let (ranked_reports, Ghost(from), Ghost(to)) = rank_snapshots(collected);
        proof {
            let dv = self.display_view();
            assert forall|k: int| 0 <= k < ranked_reports@.len() implies reports(cv, nv, dv, #[trigger] ranked_reports@[k]) by {
                assert(ranked_reports@[k] == collected@[from[k]]);
            }
            assert forall|pid: u32| #[trigger] is_active(cv, pid) implies exists|k: int| 0 <= k < ranked_reports@.len() && ranked_reports@[k].pid == pid by {
                let k0 = choose|k0: int| 0 <= k0 < collected@.len() && collected@[k0].pid == pid;
                assert(ranked_reports@[to[k0]] == collected@[k0]);
            }
        }
        proof {
            lemma_ranked_by_rates(ranked_reports@);
        }
        Some(ranked_reports)
    }

    /// The active processes that have no display name yet, with the image
    /// name each would be reported under, so that the system can be asked
    /// for their descriptions before the next report.
    pub fn pending_display_names(&self) -> (r: Vec<(u32, String)>)
        ensures
            forall|k: int|
                0 <= k < r@.len() ==> is_active(self.counters_view(), (#[trigger] r@[k]).0)
                    && !self.display_view().contains_key(r@[k].0)
                    && r@[k].1@ == reported_image(self.counters_view(), self.names_view(), r@[k].0),
            forall|pid: u32|
                #[trigger] is_active(self.counters_view(), pid) && !self.display_view().contains_key(pid) ==> exists|k: int|
                    0 <= k < r@.len() && r@[k].0 == pid,
            forall|a: int, b: int| 0 <= a < b < r@.len() ==> (#[trigger] r@[a]).0 != (#[trigger] r@[b]).0,
    {
        let ghost cv = self.counters_view();
        let ghost nv = self.names_view();
        let ghost s = self.counters.iter().remaining();
        let mut out: Vec<(u32, String)> = Vec::new();
        let ghost mut at: Seq<int> = Seq::empty();
        let ghost mut src: Seq<int> = Seq::empty();
        for (pid, bucket) in it: self.counters.iter()
            invariant
                it.seq() == s,
                cv == buckets_view(self.counters@),
                nv == self.names_view(),
                forall|j: int| 0 <= j < s.len() ==> self.counters@.contains_key(*s[j].0) && self.counters@[*s[j].0] == *s[j].1,
                forall|k: u32| self.counters@.contains_key(k) ==> s.contains((&k, &self.counters@[k])),
                s.no_duplicates(),
                at.len() == it.index(),
                forall|j: int|
                    0 <= j < it.index() && is_active(cv, *s[j].0) && !self.display_view().contains_key(*s[j].0) ==> 0
                        <= #[trigger] at[j] < out@.len() && out@[at[j]].0 == *s[j].0,
                src.len() == out@.len(),
                forall|k: int| 0 <= k < out@.len() ==> 0 <= #[trigger] src[k] < it.index() && out@[k].0 == *s[src[k]].0,
                forall|a: int, b: int| 0 <= a < b < out@.len() ==> #[trigger] src[a] < #[trigger] src[b],
                forall|k: int|
                    0 <= k < out@.len() ==> is_active(cv, (#[trigger] out@[k]).0) && !self.display_view().contains_key(out@[k].0)
                        && out@[k].1@ == reported_image(cv, nv, out@[k].0),
        {
            let ghost j = it.index();
            assert(*s[j].0 == *pid && *s[j].1 == *bucket);
            if !(bucket.down_bytes == 0 && bucket.up_bytes == 0) && !self.display_names.contains_key(pid) {
                let image_name: String = if bucket.image_name.as_str().unicode_len() > 0 {
                    bucket.image_name.clone()
                } else {
                    match self.names.get(pid) {
                        Some(name) => name.clone(),
                        None => {
                            let mut text = String::from_str("pid-");
                            push_decimal(&mut text, *pid as u128);
                            text
                        },
                    }
                };
                out.push((*pid, image_name));
                proof {
                    at = at.push(out@.len() - 1);
                    src = src.push(j);
                }
            } else {
                proof {
                    at = at.push(0);
                }
            }
        }
        proof {
            lemma_iter_keys_distinct(self.counters@, s);
            assert forall|a: int, b: int| 0 <= a < b < out@.len() implies (#[trigger] out@[a]).0 != (#[trigger] out@[b]).0 by {
                assert(src[a] < src[b]);
                assert(*s[src[a]].0 != *s[src[b]].0);
            }
            assert forall|pid: u32|
                #[trigger] is_active(cv, pid) && !self.display_view().contains_key(pid) implies exists|k: int|
                    0 <= k < out@.len() && out@[k].0 == pid by {
                assert(s.contains((&pid, &self.counters@[pid])));
                let j = choose|j: int| 0 <= j < s.len() && s[j] == (&pid, &self.counters@[pid]);
                assert(out@[at[j]].0 == pid);
            }
        }
        out
    }

    /// Keeps the display name found for a process, unless one is known already.
    pub fn cache_display_name(&mut self, pid: u32, display_name: String)
        ensures
            final(self).display_view() == if old(self).display_view().contains_key(pid) {
                old(self).display_view()
            } else {
                old(self).display_view().insert(pid, display_name@)
            },
            final(self).names_view() == old(self).names_view(),
            final(self).counters_view() == old(self).counters_view(),
    {
        if !self.display_names.contains_key(&pid) {
            self.display_names.insert(pid, display_name);
            proof {
                assert(self.display_view() =~= old(self).display_view().insert(pid, display_name@));
            }
        }
    }
}

/// The image name a process is known under at start: its executable path
/// when the system gives a nonempty one, else its process name.
pub fn image_name_for_process(exe: Option<String>, name: String) -> (r: String)
    ensures
        r@ == match exe {
            Some(path) => if path@.len() > 0 { path@ } else { name@ },
            None => name@,
        },
{
    match exe {
        Some(path) => if path.as_str().unicode_len() > 0 {
            path
        } else {
            name
        },
        None => name,
    }
}

/// The image names of the running processes, from `(pid, executable path,
/// process name)` entries; a later entry for the same pid wins.
pub fn process_names_from(entries: Vec<(u32, Option<String>, String)>) -> (r: HashMap<u32, String>)
    ensures
        forall|pid: u32|
            #[trigger] r@.contains_key(pid) <==> exists|k: int| 0 <= k < entries@.len() && entries@[k].0 == pid,
        forall|k: int|
            0 <= k < entries@.len() && (forall|k2: int| k < k2 < entries@.len() ==> entries@[k2].0 != entries@[k].0)
                ==> r@[(#[trigger] entries@[k]).0]@ == match entries@[k].1 {
                Some(path) => if path@.len() > 0 { path@ } else { entries@[k].2@ },
                None => entries@[k].2@,
            },
{
    let ghost input = entries@;
    let mut names: HashMap<u32, String> = HashMap::new();
    let mut rest = entries;
    let n = rest.len();
    // Walk the entries back to front, so the first name kept for a pid is
    // the one of its last entry.
    while rest.len() > 0
        invariant
            input.len() == n,
            rest@.len() <= n,
            rest@ == input.take(rest@.len() as int),
            forall|pid: u32|
                #[trigger] names@.contains_key(pid) <==> exists|k: int| rest@.len() <= k < n && input[k].0 == pid,
            forall|k: int|
                rest@.len() <= k < n && (forall|k2: int| k < k2 < n ==> input[k2].0 != input[k].0)
                    ==> names@[(#[trigger] input[k]).0]@ == match input[k].1 {
                    Some(path) => if path@.len() > 0 { path@ } else { input[k].2@ },
                    None => input[k].2@,
                },
        decreases rest@.len(),
    {
        let ghost idx = rest@.len() - 1;
        let entry = rest.pop().unwrap();
        assert(entry == input[idx]);
        assert(rest@ =~= input.take(idx));
        let (pid, exe, name) = entry;
        if !names.contains_key(&pid) {
            let image = image_name_for_process(exe, name);
            names.insert(pid, image);
        } else {
            proof {
                let k = choose|k: int| idx + 1 <= k < n && input[k].0 == pid;
            }
        }
    }
    names
}

} // verus!
