//! CPU accounting read from the kernel's per-process and per-core counters.
use crate::text::{
    chars_of, is_whitespace, lemma_token_len, lines, next_line, nth_field, nth_field_range, numeric_fields,
    numeric_fields_from, parse_u64, parse_u64_range, token_end, token_len, trim, trim_range,
};
use vstd::string::StrSliceExecFns;
use vstd::prelude::*;

verus! {

/// One core's cumulative time, in clock ticks, by kind of work.
#[derive(Clone, Copy, Debug, Default)]
pub struct CoreTicks {
    pub user: u64,
    pub nice: u64,
    pub system: u64,
    pub idle: u64,
    pub iowait: u64,
    pub irq: u64,
    pub softirq: u64,
    pub steal: u64,
}

impl CoreTicks {
    pub open spec fn spec_total(&self) -> int {
        self.user + self.nice + self.system + self.idle + self.iowait + self.irq + self.softirq + self.steal
    }

    /// All ticks, of every kind.
    pub fn total(&self) -> (r: u64)
        requires
            self.spec_total() <= u64::MAX,
        ensures
            r == self.spec_total(),
    {
        self.user + self.nice + self.system + self.idle + self.iowait + self.irq + self.softirq + self.steal
    }
}

/// Clock ticks in microseconds, at `clk_tck` ticks a second (taken as one
/// if zero); the product saturates.
pub open spec fn spec_ticks_to_us(ticks: u64, clk_tck: u64) -> int {
    let us: int = if ticks * 1_000_000 <= u64::MAX { ticks * 1_000_000 } else { u64::MAX as int };
    us / (if clk_tck >= 1 { clk_tck as int } else { 1 })
}

pub fn ticks_to_us(ticks: u64, clk_tck: u64) -> (r: u64)
    ensures
        r == spec_ticks_to_us(ticks, clk_tck),
{
    let us: u64 = if ticks <= u64::MAX / 1_000_000 {
        ticks * 1_000_000
    } else {
        u64::MAX
    };
    let divisor: u64 = if clk_tck >= 1 {
        clk_tck
    } else {
        1
    };
    us / divisor
}

/// The position of the last `c` in `s`.
pub open spec fn last_index_of(s: Seq<char>, c: char) -> Option<int>
    decreases s.len(),
{
    if s.len() == 0 {
        None
    } else if s.last() == c {
        Some(s.len() - 1)
    } else {
        last_index_of(s.drop_last(), c)
    }
}

/// The user and system time, in ticks, in a process's `stat` line. The
/// command name (the second field) may hold spaces and parentheses, so the
/// fields are counted from after the last `)`: there, user time is the
/// twelfth and system time the thirteenth.
pub open spec fn spec_parse_stat(s: Seq<char>) -> Option<(u64, u64)> {
    match last_index_of(s, ')') {
        None => None,
        Some(close) => {
            let tail = s.skip(close + 1);
            match (nth_field(tail, 11), nth_field(tail, 12)) {
                (Some(u), Some(t)) => match (parse_u64(u), parse_u64(t)) {
                    (Some(utime), Some(stime)) => Some((utime, stime)),
                    _ => None,
                },
                _ => None,
            }
        },
    }
}

/// Where the last `c` in `s` is.
fn last_index(s: &Vec<char>, c: char) -> (r: Option<usize>)
    ensures
        match r {
            None => last_index_of(s@, c) is None,
            Some(i) => last_index_of(s@, c) == Some(i as int) && i < s.len(),
        },
{
    let mut i = s.len();
    assert(s@.take(i as int) =~= s@);
    while i > 0
        invariant
            i <= s.len(),
            last_index_of(s@, c) == last_index_of(s@.take(i as int), c),
        decreases i,
    {
        assert(s@.take(i as int).drop_last() =~= s@.take(i as int - 1));
        if s[i - 1] == c {
            return Some(i - 1);
        }
        i = i - 1;
    }
    None
}

/// The user and system time, in ticks, in a process's `stat` line.
pub fn parse_stat(s: &str) -> (r: Option<(u64, u64)>)
    ensures
        r == spec_parse_stat(s@),
{
    let chars = chars_of(s);
    let close = match last_index(&chars, ')') {
        None => return None,
        Some(c) => c,
    };
    let start = close + 1;
    let utime = match nth_field_range(&chars, start, 11) {
        None => return None,
        Some((a, b)) => parse_u64_range(&chars, a, b),
    };
    let stime = match nth_field_range(&chars, start, 12) {
        None => return None,
        Some((a, b)) => parse_u64_range(&chars, a, b),
    };
    match (utime, stime) {
        (Some(u), Some(t)) => Some((u, t)),
        _ => None,
    }
}


/// What parsing `tok` as a `u32` gives.
pub open spec fn parse_u32(tok: Seq<char>) -> Option<u32> {
    match parse_u64(tok) {
        Some(v) => if v <= u32::MAX {
            Some(v as u32)
        } else {
            None
        },
        None => None,
    }
}

/// Whether `l` starts with `p`.
pub open spec fn starts_with(l: Seq<char>, p: Seq<char>) -> bool {
    l.len() >= p.len() && l.take(p.len() as int) == p
}

/// What a line of the kernel's `/proc/stat` says of a core: `None` if it
/// names a core by a number that does not parse, which spoils the whole
/// reading; `Some(None)` if it is not a core's line (the aggregate `cpu `
/// line among them) or holds fewer than eight counters; else the core's
/// number and its first eight counters.
pub open spec fn spec_core_line(l: Seq<char>) -> Option<Option<(u32, CoreTicks)>> {
    if !starts_with(l, seq!['c', 'p', 'u']) || starts_with(l, seq!['c', 'p', 'u', ' ']) {
        Some(None)
    } else {
        let n = token_len(l);
        match parse_u32(l.take(n as int).skip(3)) {
            None => None,
            Some(id) => {
                let nums = numeric_fields(l.skip(n as int));
                if nums.len() < 8 {
                    Some(None)
                } else {
                    Some(
                        Some(
                            (
                                id,
                                CoreTicks {
                                    user: nums[0],
                                    nice: nums[1],
                                    system: nums[2],
                                    idle: nums[3],
                                    iowait: nums[4],
                                    irq: nums[5],
                                    softirq: nums[6],
                                    steal: nums[7],
                                },
                            ),
                        ),
                    )
                }
            },
        }
    }
}

/// The cores read off the lines `ls` of `/proc/stat`, in order.
pub open spec fn spec_parse_cores(ls: Seq<Seq<char>>) -> Option<Seq<(u32, CoreTicks)>>
    decreases ls.len(),
{
    if ls.len() == 0 {
        Some(Seq::empty())
    } else {
        match spec_parse_cores(ls.drop_last()) {
            None => None,
            Some(acc) => match spec_core_line(ls.last()) {
                None => None,
                Some(None) => Some(acc),
                Some(Some(c)) => Some(acc.push(c)),
            },
        }
    }
}

proof fn lemma_parse_cores_append(ls: Seq<Seq<char>>, l: Seq<char>)
    ensures
        spec_parse_cores(ls.push(l)) == match spec_parse_cores(ls) {
            None => None,
            Some(acc) => match spec_core_line(l) {
                None => None,
                Some(None) => Some(acc),
                Some(Some(c)) => Some(acc.push(c)),
            },
        },
{
    assert(ls.push(l).drop_last() =~= ls);
}

/// The line `s[a..b]` of `/proc/stat`, as [`spec_core_line`] reads it.
fn core_line(s: &Vec<char>, a: usize, b: usize) -> (r: Option<Option<(u32, CoreTicks)>>)
    requires
        a <= b <= s.len(),
    ensures
        r == spec_core_line(s@.subrange(a as int, b as int)),
{
    let ghost l = s@.subrange(a as int, b as int);
    let mut line: Vec<char> = Vec::new();
    let mut k = a;
    while k < b
        invariant
            a <= k <= b <= s.len(),
            line@ == s@.subrange(a as int, k as int),
        decreases b - k,
    {
        line.push(s[k]);
        proof {
            assert(line@ =~= s@.subrange(a as int, k as int + 1));
        }
        k = k + 1;
    }
    assert(line@ == l);
    let is_cpu = line.len() >= 3 && line[0] == 'c' && line[1] == 'p' && line[2] == 'u';
    proof {
        if line.len() >= 3 {
            assert(is_cpu == (l.take(3) =~= seq!['c', 'p', 'u']));
        }
    }
    if !is_cpu {
        return Some(None);
    }
    if line.len() >= 4 && line[3] == ' ' {
        proof {
            assert(l.take(4) =~= seq!['c', 'p', 'u', ' ']);
        }
        return Some(None);
    }
    proof {
        if line.len() >= 4 {
            assert(l.take(4) != seq!['c', 'p', 'u', ' ']) by {
                assert(l.take(4)[3] == l[3]);
            }
        }
    }
    let n = token_end(&line, 0);
    proof {
        assert(line@.skip(0) =~= line@);
        lemma_token_len(line@);
        assert(!is_whitespace('c'));
        assert(l.take(n as int).skip(3) =~= line@.subrange(3, n as int));
    }
    let id = match parse_u64_range(&line, 3, n) {
        None => return None,
        Some(v) => if v <= 4294967295 {
            v as u32
        } else {
            return None;
        },
    };
    let nums = numeric_fields_from(&line, n);
    if nums.len() < 8 {
        return Some(None);
    }
    Some(
        Some(
            (
                id,
                CoreTicks {
                    user: nums[0],
                    nice: nums[1],
                    system: nums[2],
                    idle: nums[3],
                    iowait: nums[4],
                    irq: nums[5],
                    softirq: nums[6],
                    steal: nums[7],
                },
            ),
        ),
    )
}

/// Each core's cumulative ticks, read off the text of `/proc/stat`: one
/// entry per `cpuN` line with at least eight counters, in order.
pub fn parse_proc_stat_cores(s: &str) -> (r: Option<Vec<(u32, CoreTicks)>>)
    ensures
        match r {
            None => spec_parse_cores(lines(s@)) is None,
            Some(v) => spec_parse_cores(lines(s@)) == Some(v@),
        },
{
    let chars = chars_of(s);
    let mut out: Vec<(u32, CoreTicks)> = Vec::new();
    let mut i: usize = 0;
    let ghost mut done: Seq<Seq<char>> = Seq::empty();
    proof {
        assert(chars@.skip(0) =~= chars@);
    }
    while i < chars.len()
        invariant
            i <= chars.len(),
            chars@ == s@,
            done + lines(chars@.skip(i as int)) == lines(s@),
            spec_parse_cores(done) == Some(out@),
        decreases chars.len() - i,
    {
        let (end, next) = next_line(&chars, i);
        let ghost l = chars@.subrange(i as int, end as int);
        proof {
            lemma_parse_cores_append(done, l);
        }
        let c = match core_line(&chars, i, end) {
            None => {
                proof {
                    let rest = match next {
                        Some(n) => lines(chars@.skip(n as int)),
                        None => Seq::empty(),
                    };
                    assert(lines(s@) =~= done.push(l) + rest);
                    assert(lines(s@).take(done.push(l).len() as int) =~= done.push(l));
                    lemma_parse_cores_prefix_fails(done.push(l), lines(s@));
                }
                return None;
            },
            Some(c) => c,
        };
        match c {
            Some(core) => out.push(core),
            None => {},
        }
        proof {
            done = done.push(l);
        }
        match next {
            None => {
                proof {
                    assert(done =~= lines(s@));
                }
                return Some(out);
            },
            Some(n) => {
                proof {
                    assert(done + lines(chars@.skip(n as int)) =~= lines(s@));
                }
                i = n;
            },
        }
    }
    proof {
        assert(chars@.skip(i as int) =~= Seq::<char>::empty());
        assert(done =~= lines(s@));
    }
    Some(out)
}

/// A failure on a prefix of the lines spoils the whole reading.
proof fn lemma_parse_cores_prefix_fails(pre: Seq<Seq<char>>, all: Seq<Seq<char>>)
    requires
        pre.len() <= all.len(),
        all.take(pre.len() as int) == pre,
        spec_parse_cores(pre) is None,
    ensures
        spec_parse_cores(all) is None,
    decreases all.len() - pre.len(),
{
    if pre.len() < all.len() {
        let next = all.take(pre.len() as int + 1);
        assert(next.drop_last() =~= pre);
        assert(next.take(pre.len() as int) =~= pre);
        assert(all.take(next.len() as int) =~= next);
        lemma_parse_cores_prefix_fails(next, all);
    } else {
        assert(all =~= pre);
    }
}

/// Where the first `c` of `s` is.
pub open spec fn first_of(s: Seq<char>, c: char) -> Option<int>
    decreases s.len(),
{
    if s.len() == 0 {
        None
    } else if s[0] == c {
        Some(0)
    } else {
        match first_of(s.drop_first(), c) {
            Some(i) => Some(i + 1),
            None => None,
        }
    }
}

proof fn lemma_first_of(s: Seq<char>, c: char)
    ensures
        first_of(s, c) matches Some(i) ==> 0 <= i < s.len() && s[i] == c && forall|j: int| 0 <= j < i ==> s[j] != c,
        first_of(s, c) is None ==> forall|j: int| 0 <= j < s.len() ==> s[j] != c,
    decreases s.len(),
{
    if s.len() > 0 && s[0] != c {
        lemma_first_of(s.drop_first(), c);
        assert forall|j: int| 1 <= j < s.len() implies s[j] == s.drop_first()[j - 1] by {}
    }
}

/// What a line of `/proc/net/dev` says of an interface: `None` if it has no
/// `:`, which spoils the whole reading; `Some(None)` for the loopback
/// interface, a nameless one, or fewer than nine counters; else the
/// interface's name, trimmed, with its received and sent bytes (the first
/// and ninth counters).
pub open spec fn spec_net_line(l: Seq<char>) -> Option<Option<(Seq<char>, u64, u64)>> {
    match first_of(l, ':') {
        None => None,
        Some(k) => {
            let iface = trim(l.take(k));
            if iface == seq!['l', 'o'] || iface.len() == 0 {
                Some(None)
            } else {
                let nums = numeric_fields(l.skip(k + 1));
                if nums.len() < 9 {
                    Some(None)
                } else {
                    Some(Some((iface, nums[0], nums[8])))
                }
            }
        },
    }
}

/// The interfaces read off the lines `ls` of `/proc/net/dev`, in order.
pub open spec fn spec_parse_net(ls: Seq<Seq<char>>) -> Option<Seq<(Seq<char>, u64, u64)>>
    decreases ls.len(),
{
    if ls.len() == 0 {
        Some(Seq::empty())
    } else {
        match spec_parse_net(ls.drop_last()) {
            None => None,
            Some(acc) => match spec_net_line(ls.last()) {
                None => None,
                Some(None) => Some(acc),
                Some(Some(i)) => Some(acc.push(i)),
            },
        }
    }
}

/// The lines after the first two.
pub open spec fn after_headers(ls: Seq<Seq<char>>) -> Seq<Seq<char>> {
    if ls.len() <= 2 {
        Seq::empty()
    } else {
        ls.skip(2)
    }
}

/// The interfaces of a reading of `/proc/net/dev`: its two header lines are
/// passed over.
pub open spec fn spec_parse_proc_net_dev(s: Seq<char>) -> Option<Seq<(Seq<char>, u64, u64)>> {
    spec_parse_net(after_headers(lines(s)))
}

proof fn lemma_parse_net_prefix_fails(pre: Seq<Seq<char>>, all: Seq<Seq<char>>)
    requires
        pre.len() <= all.len(),
        all.take(pre.len() as int) == pre,
        spec_parse_net(pre) is None,
    ensures
        spec_parse_net(all) is None,
    decreases all.len() - pre.len(),
{
    if pre.len() < all.len() {
        let next = all.take(pre.len() as int + 1);
        assert(next.drop_last() =~= pre);
        assert(next.take(pre.len() as int) =~= pre);
        assert(all.take(next.len() as int) =~= next);
        lemma_parse_net_prefix_fails(next, all);
    } else {
        assert(all =~= pre);
    }
}

/// The interface of the line `s[a..b]` of `/proc/net/dev`, as
/// [`spec_net_line`] reads it; `text` is the whole reading, whose characters
/// `s` holds.
fn net_line(text: &str, s: &Vec<char>, a: usize, b: usize) -> (r: Option<Option<(String, u64, u64)>>)
    requires
        a <= b <= s.len(),
        s@ == text@,
    ensures
        match r {
            None => spec_net_line(s@.subrange(a as int, b as int)) is None,
            Some(None) => spec_net_line(s@.subrange(a as int, b as int)) == Some(None::<(Seq<char>, u64, u64)>),
            Some(Some((name, rx, tx))) => spec_net_line(s@.subrange(a as int, b as int)) == Some(Some((name@, rx, tx))),
        },
{
    let ghost l = s@.subrange(a as int, b as int);
    proof {
        lemma_first_of(l, ':');
    }
    let mut k = a;
    while k < b && s[k] != ':'
        invariant
            a <= k <= b <= s.len(),
            forall|j: int| a <= j < k ==> s@[j] != ':',
        decreases b - k,
    {
        k = k + 1;
    }
    if k == b {
        proof {
            match first_of(l, ':') {
                Some(j) => {
                    assert(l[j] == s@[a + j]);
                },
                None => {},
            }
        }
        return None;
    }
    proof {
        match first_of(l, ':') {
            Some(j) => {
                if j < k - a {
                    assert(l[j] == s@[a + j]);
                }
                assert(l[k - a] == ':');
                assert(j == k - a);
            },
            None => {
                assert(l[k - a] == ':');
            },
        }
        assert(l.take(k - a) =~= s@.subrange(a as int, k as int));
    }
    let (ia, ib) = trim_range(s, a, k);
    let ghost iface = s@.subrange(ia as int, ib as int);
    let is_lo = ib - ia == 2 && s[ia] == 'l' && s[ia + 1] == 'o';
    proof {
        if ib - ia == 2 {
            assert(is_lo == (iface =~= seq!['l', 'o']));
        } else {
            assert(iface.len() != 2);
        }
    }
    if is_lo || ia == ib {
        return Some(None);
    }
    let mut line: Vec<char> = Vec::new();
    let mut j = k + 1;
    while j < b
        invariant
            k < b,
            k + 1 <= j <= b || (j == k + 1 && k + 1 > b),
            b <= s.len(),
            line@ == s@.subrange(k + 1, j as int),
        decreases b - j,
    {
        line.push(s[j]);
        proof {
            assert(line@ =~= s@.subrange(k + 1, j as int + 1));
        }
        j = j + 1;
    }
    proof {
        assert(line@ =~= l.skip(k - a + 1));
        assert(line@.skip(0) =~= line@);
    }
    let nums = numeric_fields_from(&line, 0);
    if nums.len() < 9 {
        return Some(None);
    }
    let name = text.substring_char(ia, ib).to_owned();
    Some(Some((name, nums[0], nums[8])))
}

/// Each network interface's cumulative received and sent bytes, read off
/// the text of `/proc/net/dev`, loopback left out.
pub fn parse_proc_net_dev(s: &str) -> (r: Option<Vec<(String, u64, u64)>>)
    ensures
        match r {
            None => spec_parse_proc_net_dev(s@) is None,
            Some(v) => spec_parse_proc_net_dev(s@) == Some(v@.map_values(|t: (String, u64, u64)| (t.0@, t.1, t.2))),
        },
{
    let chars = chars_of(s);
    let mut out: Vec<(String, u64, u64)> = Vec::new();
    let mut i: usize = 0;
    let mut seen: usize = 0;
    let ghost mut done: Seq<Seq<char>> = Seq::empty();
    proof {
        assert(chars@.skip(0) =~= chars@);
    }
    while i < chars.len()
        invariant
            i <= chars.len(),
            chars@ == s@,
            done + lines(chars@.skip(i as int)) == lines(s@),
            seen <= 2,
            seen < 2 ==> seen == done.len(),
            seen == 2 ==> done.len() >= 2,
            spec_parse_net(after_headers(done)) == Some(out@.map_values(|t: (String, u64, u64)| (t.0@, t.1, t.2))),
        decreases chars.len() - i,
    {
        let (end, next) = next_line(&chars, i);
        let ghost l = chars@.subrange(i as int, end as int);
        let ghost rest = match next {
            Some(n) => lines(chars@.skip(n as int)),
            None => Seq::empty(),
        };
        proof {
            assert(lines(s@) =~= done.push(l) + rest);
        }
        if seen < 2 {
            seen = seen + 1;
            proof {
                assert(after_headers(done.push(l)) =~= Seq::<Seq<char>>::empty());
            }
        } else {
            proof {
                assert(after_headers(done.push(l)) =~= after_headers(done).push(l));
                assert(after_headers(done).push(l).drop_last() =~= after_headers(done));
            }
            let ghost before = out@;
            match net_line(s, &chars, i, end) {
                None => {
                    proof {
                        let pre = after_headers(done).push(l);
                        assert(spec_parse_net(pre) is None);
                        let all = after_headers(lines(s@));
                        assert(all =~= pre + rest);
                        assert(all.take(pre.len() as int) =~= pre);
                        lemma_parse_net_prefix_fails(pre, all);
                    }
                    return None;
                },
                Some(None) => {},
                Some(Some(t)) => {
                    out.push(t);
                    proof {
                        assert(out@.map_values(|t: (String, u64, u64)| (t.0@, t.1, t.2)) =~= before.map_values(
                            |t: (String, u64, u64)| (t.0@, t.1, t.2),
                        ).push((t.0@, t.1, t.2)));
                    }
                },
            }
        }
        proof {
            done = done.push(l);
        }
        match next {
            None => {
                proof {
                    assert(done =~= lines(s@));
                }
                return Some(out);
            },
            Some(n) => {
                proof {
                    assert(done + lines(chars@.skip(n as int)) =~= lines(s@));
                }
                i = n;
            },
        }
    }
    proof {
        assert(chars@.skip(i as int) =~= Seq::<char>::empty());
        assert(done =~= lines(s@));
    }
    Some(out)
}

/// `a - b`, or zero if `b` is larger.
pub open spec fn sat_sub(a: u64, b: u64) -> u64 {
    if a >= b { (a - b) as u64 } else { 0 }
}

/// The user and system time spent since the previous reading `prev` of a
/// process's or thread's counters, in microseconds; counters that went back
/// count as nothing.
pub fn cpu_delta(prev: (u64, u64), cur: (u64, u64), clk_tck: u64) -> (r: (u64, u64))
    ensures
        r.0 == spec_ticks_to_us(sat_sub(cur.0, prev.0), clk_tck),
        r.1 == spec_ticks_to_us(sat_sub(cur.1, prev.1), clk_tck),
{
    (ticks_to_us(cur.0.saturating_sub(prev.0), clk_tck), ticks_to_us(cur.1.saturating_sub(prev.1), clk_tck))
}

/// The bytes an interface received and sent since the previous reading, if
/// any moved.
pub fn net_delta(prev: (u64, u64), cur: (u64, u64)) -> (r: Option<(u64, u64)>)
    ensures
        r == if sat_sub(cur.0, prev.0) > 0 || sat_sub(cur.1, prev.1) > 0 {
            Some((sat_sub(cur.0, prev.0), sat_sub(cur.1, prev.1)))
        } else {
            None
        },
{
    let drx = cur.0.saturating_sub(prev.0);
    let dtx = cur.1.saturating_sub(prev.1);
    if drx > 0 || dtx > 0 {
        Some((drx, dtx))
    } else {
        None
    }
}

/// A core's ticks since the previous reading: all of them, then the user,
/// system, iowait and idle ones, if any passed at all.
pub fn core_delta(prev: CoreTicks, cur: CoreTicks) -> (r: Option<(u64, u64, u64, u64, u64)>)
    requires
        prev.spec_total() <= u64::MAX,
        cur.spec_total() <= u64::MAX,
    ensures
        ({
            let dt = sat_sub(cur.spec_total() as u64, prev.spec_total() as u64);
            r == if dt > 0 {
                Some(
                    (
                        dt,
                        sat_sub(cur.user, prev.user),
                        sat_sub(cur.system, prev.system),
                        sat_sub(cur.iowait, prev.iowait),
                        sat_sub(cur.idle, prev.idle),
                    ),
                )
            } else {
                None
            }
        }),
{
    let dt = cur.total().saturating_sub(prev.total());
    if dt == 0 {
        return None;
    }
    Some(
        (
            dt,
            cur.user.saturating_sub(prev.user),
            cur.system.saturating_sub(prev.system),
            cur.iowait.saturating_sub(prev.iowait),
            cur.idle.saturating_sub(prev.idle),
        ),
    )
}
} // verus!
