use vstd::prelude::*;

verus! {

/// The Unicode `White_Space` characters, which `char::is_whitespace` accepts.
pub open spec fn space_char(c: char) -> bool {
    let u = c as u32;
    ||| 9 <= u <= 13
    ||| u == 32
    ||| u == 0x85
    ||| u == 0xA0
    ||| u == 0x1680
    ||| 0x2000 <= u <= 0x200A
    ||| u == 0x2028
    ||| u == 0x2029
    ||| u == 0x202F
    ||| u == 0x205F
    ||| u == 0x3000
}

/// Whether `c` is white space.
pub fn is_space(c: char) -> (r: bool)
    ensures
        r == space_char(c),
{
    let u = c as u32;
    (9 <= u && u <= 13) || u == 32 || u == 0x85 || u == 0xA0 || u == 0x1680 || (0x2000 <= u && u
        <= 0x200A) || u == 0x2028 || u == 0x2029 || u == 0x202F || u == 0x205F || u == 0x3000
}

/// Splitting the first `i` characters of `s` at white space: the finished
/// words, and the word still being read.
pub open spec fn scan_words(s: Seq<char>, i: int) -> (Seq<Seq<char>>, Seq<char>)
    decreases i,
{
    if i <= 0 {
        (Seq::empty(), Seq::empty())
    } else {
        let (done, cur) = scan_words(s, i - 1);
        if space_char(s[i - 1]) {
            if cur.len() > 0 {
                (done.push(cur), Seq::empty())
            } else {
                (done, Seq::empty())
            }
        } else {
            (done, cur.push(s[i - 1]))
        }
    }
}

/// The words of `s`: its maximal runs of characters other than white space,
/// in order (what `str::split_whitespace` yields).
pub open spec fn words(s: Seq<char>) -> Seq<Seq<char>> {
    let (done, cur) = scan_words(s, s.len() as int);
    if cur.len() > 0 {
        done.push(cur)
    } else {
        done
    }
}

/// The first position at or after `i` that holds no white space; `s.len()`
/// if there is none.
pub open spec fn lead_end(s: Seq<char>, i: int) -> int
    decreases s.len() - i,
{
    if i >= s.len() {
        s.len() as int
    } else if !space_char(s[i]) {
        i
    } else {
        lead_end(s, i + 1)
    }
}

/// One past the last position before `j` that holds no white space; `0` if
/// there is none.
pub open spec fn trail_start(s: Seq<char>, j: int) -> int
    decreases j,
{
    if j <= 0 {
        0
    } else if !space_char(s[j - 1]) {
        j
    } else {
        trail_start(s, j - 1)
    }
}

/// `s` without leading and trailing white space (what `str::trim` gives).
pub open spec fn trimmed(s: Seq<char>) -> Seq<char> {
    let a = lead_end(s, 0);
    let b = trail_start(s, s.len() as int);
    if a < b {
        s.subrange(a, b)
    } else {
        Seq::empty()
    }
}

/// `s` begins with `prefix`.
pub open spec fn has_prefix(s: Seq<char>, prefix: Seq<char>) -> bool {
    prefix.len() <= s.len() && s.subrange(0, prefix.len() as int) == prefix
}

/// The number written in decimal by `d`, most significant digit first.
pub open spec fn decimal_value(d: Seq<char>) -> int
    decreases d.len(),
{
    if d.len() == 0 {
        0
    } else {
        decimal_value(d.drop_last()) * 10 + (d.last() as u32 - 48)
    }
}

/// Every character of `d` is one of `0` to `9`.
pub open spec fn all_decimal(d: Seq<char>) -> bool {
    forall|i: int| 0 <= i < d.len() ==> 48 <= #[trigger] (d[i] as u32) <= 57
}

/// The unsigned integer that `t` spells, as `usize::from_str` reads it: an
/// optional `+`, then at least one decimal digit, with a value that fits.
pub open spec fn parsed_usize(t: Seq<char>) -> Option<usize> {
    let d = if t.len() > 0 && t[0] == '+' {
        t.drop_first()
    } else {
        t
    };
    if d.len() > 0 && all_decimal(d) && decimal_value(d) <= usize::MAX {
        Some(decimal_value(d) as usize)
    } else {
        None
    }
}

/// The contents of each list in `v`.
pub open spec fn views(v: Seq<Vec<char>>) -> Seq<Seq<char>> {
    v.map_values(|x: Vec<char>| x@)
}

/// The words of `line`.
pub fn split_words(line: &Vec<char>) -> (r: Vec<Vec<char>>)
    ensures
        views(r@) == words(line@),
{
    let mut done: Vec<Vec<char>> = Vec::new();
    let mut cur: Vec<char> = Vec::new();
    let mut i: usize = 0;
    while i < line.len()
        invariant
            i <= line@.len(),
            (views(done@), cur@) == scan_words(line@, i as int),
        decreases line@.len() - i,
    {
        let c = line[i];
        if is_space(c) {
            if cur.len() > 0 {
                let ghost d0 = views(done@);
                let w = cur;
                cur = Vec::new();
                done.push(w);
                proof {
                    assert(views(done@) =~= d0.push(w@));
                }
            }
        } else {
            cur.push(c);
        }
        i = i + 1;
    }
    if cur.len() > 0 {
        let ghost d0 = views(done@);
        let ghost cv = cur@;
        done.push(cur);
        proof {
            assert(views(done@) =~= d0.push(cv));
        }
    }
    done
}

/// `line` without leading and trailing white space.
pub fn trim(line: &Vec<char>) -> (r: Vec<char>)
    ensures
        r@ == trimmed(line@),
{
    let n = line.len();
    let mut a: usize = 0;
    while a < n && is_space(line[a])
        invariant
            a <= n == line@.len(),
            lead_end(line@, 0) == lead_end(line@, a as int),
        decreases n - a,
    {
        a = a + 1;
    }
    let mut b: usize = n;
    while b > 0 && is_space(line[b - 1])
        invariant
            b <= n == line@.len(),
            trail_start(line@, n as int) == trail_start(line@, b as int),
        decreases b,
    {
        b = b - 1;
    }
    let mut r: Vec<char> = Vec::new();
    if a < b {
        let mut i = a;
        while i < b
            invariant
                a <= i <= b <= n == line@.len(),
                r@ == line@.subrange(a as int, i as int),
            decreases b - i,
        {
            r.push(line[i]);
            i = i + 1;
        }
    }
    r
}

/// Whether `line` begins with `prefix`.
pub fn starts_with(line: &Vec<char>, prefix: &str) -> (r: bool)
    ensures
        r == has_prefix(line@, prefix@),
{
    let m = prefix.unicode_len();
    if m > line.len() {
        return false;
    }
    let mut i: usize = 0;
    while i < m
        invariant
            m == prefix@.len(),
            m <= line@.len(),
            i <= m,
            forall|j: int| 0 <= j < i ==> line@[j] == prefix@[j],
        decreases m - i,
    {
        if line[i] != prefix.get_char(i) {
            proof {
                assert(line@.subrange(0, m as int)[i as int] != prefix@[i as int]);
            }
            return false;
        }
        i = i + 1;
    }
    proof {
        assert(line@.subrange(0, m as int) =~= prefix@);
    }
    true
}

proof fn lemma_decimal_grows(d: Seq<char>)
    requires
        d.len() > 0,
        all_decimal(d),
    ensures
        decimal_value(d) >= decimal_value(d.drop_last()),
        decimal_value(d.drop_last()) >= 0,
    decreases d.len(),
{
    if d.len() > 1 {
        lemma_decimal_grows(d.drop_last());
    }
}

/// The unsigned integer `t` spells, if it spells one.
pub fn parse_usize(t: &Vec<char>) -> (r: Option<usize>)
    ensures
        r == parsed_usize(t@),
{
    let n = t.len();
    let start: usize = if n > 0 && t[0] == '+' {
        1
    } else {
        0
    };
    let ghost d = if t@.len() > 0 && t@[0] == '+' {
        t@.drop_first()
    } else {
        t@
    };
    if start == n {
        return None;
    }
    let mut value: usize = 0;
    let mut i = start;
    while i < n
        invariant
            start <= i <= n == t@.len(),
            start < n,
            d == t@.subrange(start as int, n as int),
            d == (if t@.len() > 0 && t@[0] == '+' {
                t@.drop_first()
            } else {
                t@
            }),
            all_decimal(d.subrange(0, i - start)),
            value == decimal_value(d.subrange(0, i - start)),
        decreases n - i,
    {
        let u = t[i] as u32;
        let ghost pre = d.subrange(0, i - start);
        let ghost next = d.subrange(0, i + 1 - start);
        proof {
            assert(next.drop_last() =~= pre);
            assert(next.last() == t@[i as int]);
        }
        if u < 48 || u > 57 {
            proof {
                assert(d[i - start] == t@[i as int]);
                assert(!all_decimal(d));
                assert(parsed_usize(t@) is None);
            }
            return None;
        }
        let digit = (u - 48) as usize;
        if value > (usize::MAX - digit) / 10 {
            proof {
                assert(decimal_value(next) > usize::MAX) by (nonlinear_arith)
                    requires
                        decimal_value(next) == value * 10 + digit,
                        value > (usize::MAX - digit) / 10,
                        0 <= digit <= 9,
                ;
                assert(all_decimal(next)) by {
                    assert forall|j: int| 0 <= j < next.len() implies 48 <= #[trigger] (next[j] as u32)
                        <= 57 by {
                        if j < next.len() - 1 {
                            assert(next[j] == pre[j]);
                        }
                    }
                }
                lemma_decimal_tail_bound(d, i + 1 - start);
                assert(parsed_usize(t@) is None);
            }
            return None;
        }
        value = value * 10 + digit;
        i = i + 1;
    }
    proof {
        assert(d.subrange(0, n - start) =~= d);
    }
    Some(value)
}

/// Appending digits never lowers the value of a decimal prefix.
proof fn lemma_decimal_tail_bound(d: Seq<char>, k: int)
    requires
        0 < k <= d.len(),
        all_decimal(d.subrange(0, k)),
    ensures
        all_decimal(d) ==> decimal_value(d) >= decimal_value(d.subrange(0, k)),
    decreases d.len() - k,
{
    if k == d.len() {
        assert(d.subrange(0, k) =~= d);
    }
    if all_decimal(d) && k < d.len() {
        assert(all_decimal(d.subrange(0, k + 1)));
        lemma_decimal_tail_bound(d, k + 1);
        let nx = d.subrange(0, k + 1);
        assert(nx.drop_last() =~= d.subrange(0, k));
        lemma_decimal_grows(nx);
    }
}

/// The first line at or after `from` that begins with `prefix`; the number
/// of lines if there is none.
pub open spec fn header_pos(lines: Seq<Vec<char>>, from: int, prefix: Seq<char>) -> int
    decreases lines.len() - from,
{
    if from >= lines.len() {
        lines.len() as int
    } else if has_prefix(lines[from]@, prefix) {
        from
    } else {
        header_pos(lines, from + 1, prefix)
    }
}

/// The smaller of `a` and `b`.
pub open spec fn min(a: int, b: int) -> int {
    if a < b {
        a
    } else {
        b
    }
}

/// The first line at or after `from` that begins with `prefix`.
pub fn find_header(lines: &Vec<Vec<char>>, from: usize, prefix: &str) -> (r: usize)
    ensures
        r == header_pos(lines@, from as int, prefix@),
{
    let mut i = from;
    while i < lines.len() && !starts_with(&lines[i], prefix)
        invariant
            from <= i,
            header_pos(lines@, from as int, prefix@) == header_pos(lines@, i as int, prefix@),
        decreases lines@.len() - i,
    {
        i = i + 1;
    }
    if i >= lines.len() {
        lines.len()
    } else {
        i
    }
}

/// A header position found at or after `from` is a line at or after `from`
/// that begins with `prefix`.
pub proof fn lemma_header_pos(lines: Seq<Vec<char>>, from: int, prefix: Seq<char>)
    requires
        0 <= from,
    ensures
        header_pos(lines, from, prefix) >= 0,
        header_pos(lines, from, prefix) < lines.len() ==> from <= header_pos(lines, from, prefix)
            && has_prefix(lines[header_pos(lines, from, prefix)]@, prefix),
    decreases lines.len() - from,
{
    if from < lines.len() && !has_prefix(lines[from]@, prefix) {
        lemma_header_pos(lines, from + 1, prefix);
    }
}

} // verus!
