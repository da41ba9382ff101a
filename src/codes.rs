//! Reading group-code lines: trimming, integer codes, type names.
use vstd::prelude::*;

verus! {

/// White space as `char::is_whitespace` defines it (the Unicode White_Space
/// property).
pub open spec fn is_space(c: char) -> bool {
    let u = c as u32;
    (0x9 <= u && u <= 0xd) || u == 0x20 || u == 0x85 || u == 0xa0 || u == 0x1680 || (0x2000
        <= u && u <= 0x200a) || u == 0x2028 || u == 0x2029 || u == 0x202f || u == 0x205f || u
        == 0x3000
}

/// `s` without its leading white space.
pub open spec fn trim_front(s: Seq<char>) -> Seq<char>
    decreases s.len(),
{
    if s.len() > 0 && is_space(s[0]) {
        trim_front(s.drop_first())
    } else {
        s
    }
}

/// `s` without its trailing white space.
pub open spec fn trim_back(s: Seq<char>) -> Seq<char>
    decreases s.len(),
{
    if s.len() > 0 && is_space(s.last()) {
        trim_back(s.drop_last())
    } else {
        s
    }
}

/// `s` without white space at either end.
pub open spec fn trimmed(s: Seq<char>) -> Seq<char> {
    trim_back(trim_front(s))
}

pub open spec fn is_digit(c: char) -> bool {
    '0' <= c && c <= '9'
}

pub open spec fn digit_value(c: char) -> int {
    (c as u32) as int - ('0' as u32) as int
}

/// The number that a string of decimal digits writes.
pub open spec fn digits_value(s: Seq<char>) -> int
    decreases s.len(),
{
    if s.len() == 0 {
        0
    } else {
        digits_value(s.drop_last()) * 10 + digit_value(s.last())
    }
}

/// One or more decimal digits.
pub open spec fn all_digits(s: Seq<char>) -> bool {
    s.len() > 0 && forall|i: int| 0 <= i < s.len() ==> is_digit(#[trigger] s[i])
}

/// The integer that `s` writes: an optional sign, then one or more decimal
/// digits, with nothing else.
pub open spec fn int_of(s: Seq<char>) -> Option<int> {
    if s.len() > 0 && (s[0] == '-' || s[0] == '+') {
        if all_digits(s.drop_first()) {
            if s[0] == '-' {
                Some(-digits_value(s.drop_first()))
            } else {
                Some(digits_value(s.drop_first()))
            }
        } else {
            None
        }
    } else if all_digits(s) {
        Some(digits_value(s))
    } else {
        None
    }
}

/// The group code that a line holds: an `i32` written in decimal, with white
/// space around it allowed.
pub open spec fn code_of(line: Seq<char>) -> Option<i32> {
    match int_of(trimmed(line)) {
        Some(v) => if i32::MIN <= v && v <= i32::MAX {
            Some(v as i32)
        } else {
            None
        },
        None => None,
    }
}

/// The largest magnitude an `i32` can have (that of `i32::MIN`).
const MAGNITUDE_CAP: i64 = 2147483648;

fn space_char(c: char) -> (r: bool)
    ensures
        r == is_space(c),
{
    let u = c as u32;
    (0x9 <= u && u <= 0xd) || u == 0x20 || u == 0x85 || u == 0xa0 || u == 0x1680 || (0x2000
        <= u && u <= 0x200a) || u == 0x2028 || u == 0x2029 || u == 0x202f || u == 0x205f || u
        == 0x3000
}

/// The bounds of `s` once the white space at both ends is cut off.
fn trim_bounds(s: &str) -> (r: (usize, usize))
    ensures
        r.0 <= r.1 <= s@.len(),
        trimmed(s@) == s@.subrange(r.0 as int, r.1 as int),
{
    let n = s.unicode_len();
    let mut lo: usize = 0;
    assert(s@.subrange(0, n as int) =~= s@);
    while lo < n && space_char(s.get_char(lo))
        invariant
            lo <= n,
            n == s@.len(),
            trim_front(s@) == trim_front(s@.subrange(lo as int, n as int)),
        decreases n - lo,
    {
        assert(s@.subrange(lo as int, n as int).drop_first() =~= s@.subrange(lo + 1, n as int));
        lo = lo + 1;
    }
    let mut hi: usize = n;
    while hi > lo && space_char(s.get_char(hi - 1))
        invariant
            lo <= hi <= n,
            n == s@.len(),
            trimmed(s@) == trim_back(s@.subrange(lo as int, hi as int)),
        decreases hi,
    {
        assert(s@.subrange(lo as int, hi as int).drop_last() =~= s@.subrange(lo as int, hi - 1));
        hi = hi - 1;
    }
    (lo, hi)
}

/// Reads the group code on a line; `None` when the line holds no `i32`.
pub fn parse_code(line: &str) -> (r: Option<i32>)
    ensures
        r == code_of(line@),
{
    let (lo, hi) = trim_bounds(line);
    let ghost t = line@.subrange(lo as int, hi as int);
    if lo == hi {
        return None;
    }
    let first = line.get_char(lo);
    let negative = first == '-';
    let start: usize = if first == '-' || first == '+' { lo + 1 } else { lo };
    if start == hi {
        return None;
    }
    let ghost body = line@.subrange(start as int, hi as int);
    assert(start > lo ==> t.drop_first() =~= body);
    assert(start == lo ==> t =~= body);
    let mut acc: i64 = 0;
    let mut k: usize = start;
    assert(line@.subrange(start as int, start as int) =~= Seq::<char>::empty());
    while k < hi
        invariant
            start <= k <= hi,
            lo < start || start == lo,
            hi <= line@.len(),
            body == line@.subrange(start as int, hi as int),
            t == line@.subrange(lo as int, hi as int),
            trimmed(line@) == t,
            t.len() > 0,
            negative == (t[0] == '-'),
            (start > lo) == (t[0] == '-' || t[0] == '+'),
            start > lo ==> t.drop_first() == body,
            start == lo ==> t == body,
            0 <= acc <= MAGNITUDE_CAP + 1,
            acc == if digits_value(line@.subrange(start as int, k as int)) > MAGNITUDE_CAP {
                MAGNITUDE_CAP + 1
            } else {
                digits_value(line@.subrange(start as int, k as int))
            },
            0 <= digits_value(line@.subrange(start as int, k as int)),
            forall|i: int| start <= i < k ==> is_digit(#[trigger] line@[i]),
        decreases hi - k,
    {
        let c = line.get_char(k);
        if !('0' <= c && c <= '9') {
            assert(body[k - start] == c);
            return None;
        }
        let d = (c as u32 - '0' as u32) as i64;
        assert(line@.subrange(start as int, k + 1).drop_last() =~= line@.subrange(
            start as int,
            k as int,
        ));
        if acc > MAGNITUDE_CAP {
            acc = MAGNITUDE_CAP + 1;
        } else {
            acc = acc * 10 + d;
            if acc > MAGNITUDE_CAP {
                acc = MAGNITUDE_CAP + 1;
            }
        }
        k = k + 1;
    }
    assert(all_digits(body)) by {
        assert forall|i: int| 0 <= i < body.len() implies is_digit(#[trigger] body[i]) by {
            assert(body[i] == line@[start + i]);
        }
    }
    assert(line@.subrange(start as int, hi as int) == body);
    if negative {
        if acc > MAGNITUDE_CAP {
            None
        } else {
            Some((-acc) as i32)
        }
    } else {
        if acc > MAGNITUDE_CAP - 1 {
            None
        } else {
            Some(acc as i32)
        }
    }
}

/// The entity types that are decoded, and all the others.
#[derive(Clone, Copy, Debug, PartialEq, Eq, Structural)]
pub enum EntityKind {
    Point,
    Line,
    Face,
    Other,
}

/// The kind that a type name (the value of a code-0 record) names.
pub open spec fn kind_of(name: Seq<char>) -> EntityKind {
    if name == "POINT"@ {
        EntityKind::Point
    } else if name == "LINE"@ {
        EntityKind::Line
    } else if name == "3DFACE"@ {
        EntityKind::Face
    } else {
        EntityKind::Other
    }
}

fn same_text(a: &str, b: &str) -> (r: bool)
    ensures
        r == (a@ == b@),
{
    let n = a.unicode_len();
    if n != b.unicode_len() {
        return false;
    }
    let mut i: usize = 0;
    while i < n
        invariant
            i <= n,
            n == a@.len(),
            n == b@.len(),
            forall|j: int| 0 <= j < i ==> a@[j] == b@[j],
        decreases n - i,
    {
        if a.get_char(i) != b.get_char(i) {
            return false;
        }
        i = i + 1;
    }
    assert(a@ =~= b@);
    true
}

/// The kind of entity that a type name starts.
pub fn classify(name: &str) -> (k: EntityKind)
    ensures
        k == kind_of(name@),
{
    if same_text(name, "POINT") {
        EntityKind::Point
    } else if same_text(name, "LINE") {
        EntityKind::Line
    } else if same_text(name, "3DFACE") {
        EntityKind::Face
    } else {
        EntityKind::Other
    }
}

/// A (group code, value) record: the code, and the index of the line that
/// holds its value.
#[derive(Clone, Copy, Debug, PartialEq, Eq, Structural)]
pub struct Pair {
    pub code: i32,
    pub value_line: usize,
}

/// The text of each line.
pub open spec fn texts(lines: Seq<String>) -> Seq<Seq<char>> {
    lines.map_values(|l: String| l@)
}

/// The records that the lines from index `i` on form. A line that holds no
/// group code is skipped, and the next line is tried as a code; a code on the
/// last line, with no value after it, ends the records.
pub open spec fn pairs_from(lines: Seq<Seq<char>>, i: int) -> Seq<Pair>
    decreases lines.len() - i,
{
    if i < 0 || i >= lines.len() {
        Seq::empty()
    } else {
        match code_of(lines[i]) {
            None => pairs_from(lines, i + 1),
            Some(c) => if i + 1 >= lines.len() {
                Seq::empty()
            } else {
                seq![Pair { code: c, value_line: (i + 1) as usize }] + pairs_from(lines, i + 2)
            },
        }
    }
}

/// Pairs the lines into (group code, value) records, in order.
pub fn pair_lines(lines: &Vec<String>) -> (r: Vec<Pair>)
    ensures
        r@ == pairs_from(texts(lines@), 0),
{
    let ghost all = texts(lines@);
    let n = lines.len();
    let mut out: Vec<Pair> = Vec::new();
    let mut i: usize = 0;
    while i < n
        invariant
            i <= n + 1,
            n == lines@.len(),
            all == texts(lines@),
            all.len() == n,
            out@ + pairs_from(all, i as int) == pairs_from(all, 0),
        decreases n + 1 - i,
    {
        assert(all[i as int] == lines@[i as int]@);
        let code = parse_code(lines[i].as_str());
        match code {
            None => {
                i = i + 1;
            },
            Some(c) => {
                if i + 1 >= n {
                    assert(out@ + Seq::<Pair>::empty() =~= out@);
                    return out;
                }
                let p = Pair { code: c, value_line: i + 1 };
                proof {
                    assert(pairs_from(all, i as int) == seq![p] + pairs_from(all, i + 2));
                    assert(out@.push(p) + pairs_from(all, i + 2) =~= out@ + (seq![p] + pairs_from(
                        all,
                        i + 2,
                    )));
                }
                out.push(p);
                i = i + 2;
            },
        }
    }
    assert(pairs_from(all, i as int) == Seq::<Pair>::empty());
    assert(out@ + Seq::<Pair>::empty() =~= out@);
    out
}

} // verus!
