//! Verified text utilities: character classes, equality, trimming and
//! splitting, working character-wise over `&str`.

use vstd::prelude::*;

verus! {

/// The views of a sequence of strings, in order.
pub open spec fn str_views(ss: Seq<String>) -> Seq<Seq<char>> {
    Seq::new(ss.len(), |i: int| ss[i]@)
}

/// Character-wise string equality.
pub fn str_eq(a: &str, b: &str) -> (r: bool)
    ensures
        r == (a@ == b@),
{
    let na = a.unicode_len();
    let nb = b.unicode_len();
    if na != nb {
        return false;
    }
    let mut i: usize = 0;
    while i < na
        invariant
            i <= na,
            na == a@.len(),
            na == b@.len(),
            forall|j: int| 0 <= j < i ==> a@[j] == b@[j],
        decreases na - i,
    {
        if a.get_char(i) != b.get_char(i) {
            return false;
        }
        i += 1;
    }
    proof {
        assert(a@ =~= b@);
    }
    true
}

/// A character that trimming removes: the Unicode white-space set, as the
/// platform's character classification has it.
pub open spec fn is_ws_char(c: char) -> bool {
    let u = c as u32;
    ||| u == 0x20
    ||| (0x9 <= u && u <= 0xD)
    ||| u == 0x85
    ||| u == 0xA0
    ||| u == 0x1680
    ||| (0x2000 <= u && u <= 0x200A)
    ||| u == 0x2028
    ||| u == 0x2029
    ||| u == 0x202F
    ||| u == 0x205F
    ||| u == 0x3000
}

fn is_ws_exec(c: char) -> (r: bool)
    ensures
        r == is_ws_char(c),
{
    let u = c as u32;
    u == 0x20 || (0x9 <= u && u <= 0xD) || u == 0x85 || u == 0xA0 || u == 0x1680 || (0x2000 <= u
        && u <= 0x200A) || u == 0x2028 || u == 0x2029 || u == 0x202F || u == 0x205F || u == 0x3000
}

/// `s` with its leading white space removed.
pub open spec fn trim_front(s: Seq<char>) -> Seq<char>
    decreases s.len(),
{
    if s.len() == 0 {
        s
    } else if is_ws_char(s[0]) {
        trim_front(s.drop_first())
    } else {
        s
    }
}

/// `s` with its trailing white space removed.
pub open spec fn trim_back(s: Seq<char>) -> Seq<char>
    decreases s.len(),
{
    if s.len() == 0 {
        s
    } else if is_ws_char(s.last()) {
        trim_back(s.drop_last())
    } else {
        s
    }
}

/// `s` with leading and trailing white space removed.
pub open spec fn trim_spec(s: Seq<char>) -> Seq<char> {
    trim_back(trim_front(s))
}

#[verifier::loop_isolation(false)]
fn scan_ws_front(s: &str) -> (start: usize)
    ensures
        start <= s@.len(),
        trim_front(s@) == s@.skip(start as int),
{
    let n = s.unicode_len();
    let mut start: usize = 0;
    proof {
        assert(s@.skip(0) =~= s@);
    }
    while start < n
        invariant
            start <= n,
            trim_front(s@) == trim_front(s@.skip(start as int)),
        decreases n - start,
    {
        if !is_ws_exec(s.get_char(start)) {
            return start;
        }
        proof {
            assert(s@.skip(start as int).drop_first() =~= s@.skip(start as int + 1));
        }
        start += 1;
    }
    proof {
        assert(s@.skip(n as int) =~= Seq::<char>::empty());
    }
    n
}

#[verifier::loop_isolation(false)]
fn scan_ws_back(s: &str, start: usize) -> (end: usize)
    requires
        start <= s@.len(),
    ensures
        start <= end <= s@.len(),
        trim_back(s@.skip(start as int)) == s@.subrange(start as int, end as int),
{
    let n = s.unicode_len();
    let mut end: usize = n;
    while end > start
        invariant
            start <= end <= n,
            trim_back(s@.skip(start as int)) == trim_back(s@.subrange(start as int, end as int)),
        decreases end,
    {
        if !is_ws_exec(s.get_char(end - 1)) {
            return end;
        }
        proof {
            assert(s@.subrange(start as int, end as int).drop_last() =~= s@.subrange(
                start as int,
                end as int - 1,
            ));
        }
        end -= 1;
    }
    end
}

/// Removes leading and trailing white space.
pub fn trim(s: &str) -> (r: &str)
    ensures
        r@ == trim_spec(s@),
{
    let start = scan_ws_front(s);
    let end = scan_ws_back(s, start);
    s.substring_char(start, end)
}

/// The index of the first occurrence of `sep` at or after `i`.
pub open spec fn find_from(s: Seq<char>, sep: char, i: int) -> Option<int>
    decreases s.len() - i,
{
    if i >= s.len() {
        None
    } else if s[i] == sep {
        Some(i)
    } else {
        find_from(s, sep, i + 1)
    }
}

/// What a successful or failed find means, pointwise.
pub proof fn lemma_find_from(s: Seq<char>, sep: char, i: int)
    requires
        0 <= i,
    ensures
        match find_from(s, sep, i) {
            Some(j) => i <= j < s.len() && s[j] == sep && forall|t: int|
                i <= t < j ==> #[trigger] s[t] != sep,
            None => forall|t: int| i <= t < s.len() ==> #[trigger] s[t] != sep,
        },
    decreases s.len() - i,
{
    if i < s.len() && s[i] != sep {
        lemma_find_from(s, sep, i + 1);
    }
}

/// Finds the first occurrence of `sep`.
#[verifier::loop_isolation(false)]
pub fn find_char(s: &str, sep: char) -> (r: Option<usize>)
    ensures
        match r {
            Some(j) => find_from(s@, sep, 0) == Some(j as int),
            None => find_from(s@, sep, 0) is None,
        },
{
    let n = s.unicode_len();
    let mut i: usize = 0;
    while i < n
        invariant
            i <= n,
            find_from(s@, sep, 0) == find_from(s@, sep, i as int),
        decreases n - i,
    {
        if s.get_char(i) == sep {
            return Some(i);
        }
        i += 1;
    }
    None
}

/// The segments of `s` split on `.`: one more segment than there are dots,
/// empty segments kept as they are.
pub open spec fn split_segs(s: Seq<char>) -> Seq<Seq<char>>
    decreases s.len(),
    via split_segs_dec
{
    match find_from(s, '.', 0) {
        None => seq![s],
        Some(j) => seq![s.take(j)] + split_segs(s.skip(j + 1)),
    }
}

#[via_fn]
proof fn split_segs_dec(s: Seq<char>) {
    lemma_find_from(s, '.', 0);
}

/// A split always yields at least one segment.
pub proof fn lemma_split_segs_len(s: Seq<char>)
    ensures
        split_segs(s).len() >= 1,
{
}

/// Splits on `.` into owned segments.
pub fn split_dots(s: &str) -> (r: Vec<String>)
    ensures
        str_views(r@) == split_segs(s@),
        r@.len() >= 1,
    decreases s@.len(),
{
    let n = s.unicode_len();
    match find_char(s, '.') {
        None => {
            let mut v: Vec<String> = Vec::new();
            v.push(String::from_str(s));
            proof {
                assert(str_views(v@) =~= seq![s@]);
            }
            v
        },
        Some(j) => {
            proof {
                lemma_find_from(s@, '.', 0);
            }
            let head = String::from_str(s.substring_char(0, j));
            let mut v = split_dots(s.substring_char(j + 1, n));
            v.insert(0, head);
            proof {
                assert(s@.subrange(0, j as int) =~= s@.take(j as int));
                assert(str_views(v@) =~= seq![s@.take(j as int)] + split_segs(
                    s@.skip(j as int + 1),
                ));
            }
            v
        },
    }
}

} // verus!
