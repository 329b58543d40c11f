use vstd::prelude::*;

verus! {

/// A character the library treats as whitespace when trimming lines:
/// the ASCII whitespace characters.
pub open spec fn is_ws(c: char) -> bool {
    c == ' ' || c == '\t' || c == '\n' || c == '\r' || c == '\u{b}' || c == '\u{c}'
}

/// `s` with its leading whitespace removed.
pub open spec fn trim_front(s: Seq<char>) -> Seq<char>
    decreases s.len(),
{
    if s.len() > 0 && is_ws(s[0]) {
        trim_front(s.drop_first())
    } else {
        s
    }
}

/// `s` with its trailing whitespace removed.
pub open spec fn trim_back(s: Seq<char>) -> Seq<char>
    decreases s.len(),
{
    if s.len() > 0 && is_ws(s.last()) {
        trim_back(s.drop_last())
    } else {
        s
    }
}

/// `s` with surrounding whitespace removed.
pub open spec fn trim_spec(s: Seq<char>) -> Seq<char> {
    trim_back(trim_front(s))
}

/// The pieces of `s` between occurrences of the delimiter `d`, scanned from
/// the left with the accumulator `cur`: every occurrence of `d` ends a piece,
/// and the text after the last occurrence is a final piece (so an empty input
/// yields one empty piece, and a trailing delimiter yields a trailing empty
/// piece).
pub open spec fn split_acc(s: Seq<char>, d: char, cur: Seq<char>) -> Seq<Seq<char>>
    decreases s.len(),
{
    if s.len() == 0 {
        seq![cur]
    } else if s[0] == d {
        seq![cur] + split_acc(s.drop_first(), d, Seq::empty())
    } else {
        split_acc(s.drop_first(), d, cur.push(s[0]))
    }
}

/// The pieces of `s` between occurrences of the delimiter `d`.
pub open spec fn split_spec(s: Seq<char>, d: char) -> Seq<Seq<char>> {
    split_acc(s, d, Seq::empty())
}

/// The views of a sequence of strings.
pub open spec fn strs_view(v: Seq<String>) -> Seq<Seq<char>> {
    v.map(|i: int, s: String| s@)
}

pub proof fn lemma_strs_view_push(v: Seq<String>, x: String)
    ensures
        strs_view(v.push(x)) == strs_view(v).push(x@),
{
    assert(strs_view(v.push(x)) =~= strs_view(v).push(x@));
}

/// Whether `c` is treated as whitespace; matches `is_ws`.
pub fn is_ws_exec(c: char) -> (r: bool)
    ensures
        r == is_ws(c),
{
    c == ' ' || c == '\t' || c == '\n' || c == '\r' || c == '\u{b}' || c == '\u{c}'
}

proof fn lemma_trim_front_step(s: Seq<char>)
    requires
        s.len() > 0,
        is_ws(s[0]),
    ensures
        trim_front(s) == trim_front(s.drop_first()),
{
}

proof fn lemma_trim_back_step(s: Seq<char>)
    requires
        s.len() > 0,
        is_ws(s.last()),
    ensures
        trim_back(s) == trim_back(s.drop_last()),
{
}

/// Remove surrounding whitespace from a string, as `trim_spec` describes.
pub fn trim(s: &str) -> (r: &str)
    ensures
        r@ == trim_spec(s@),
{
    let len = s.unicode_len();
    proof {
        assert(s@.subrange(0, len as int) =~= s@);
    }
    let mut i: usize = 0;
    while i < len && is_ws_exec(s.get_char(i))
        invariant
            0 <= i <= len,
            len == s@.len(),
            trim_front(s@) == trim_front(s@.subrange(i as int, len as int)),
        decreases len - i,
    {
        proof {
            lemma_trim_front_step(s@.subrange(i as int, len as int));
            assert(s@.subrange(i as int, len as int).drop_first() =~= s@.subrange(
                i + 1,
                len as int,
            ));
        }
        i = i + 1;
    }
    proof {
        if i == len {
            assert(s@.subrange(i as int, len as int) =~= Seq::<char>::empty());
        }
        assert(trim_front(s@) == s@.subrange(i as int, len as int));
    }
    let mut j: usize = len;
    while j > i && is_ws_exec(s.get_char(j - 1))
        invariant
            0 <= i <= j <= len,
            len == s@.len(),
            trim_front(s@) == s@.subrange(i as int, len as int),
            trim_back(trim_front(s@)) == trim_back(s@.subrange(i as int, j as int)),
        decreases j,
    {
        proof {
            lemma_trim_back_step(s@.subrange(i as int, j as int));
            assert(s@.subrange(i as int, j as int).drop_last() =~= s@.subrange(i as int, j - 1));
        }
        j = j - 1;
    }
    proof {
        let t = s@.subrange(i as int, j as int);
        assert(trim_front(t) == t);
        assert(trim_back(t) == t);
    }
    s.substring_char(i, j)
}

/// Split `s` at every occurrence of `d`, as `split_spec` describes.
pub fn split_char(s: &str, d: char) -> (r: Vec<String>)
    ensures
        strs_view(r@) == split_spec(s@, d),
{
    let len = s.unicode_len();
    let mut r: Vec<String> = Vec::new();
    let mut start: usize = 0;
    let mut i: usize = 0;
    proof {
        assert(s@.subrange(0, len as int) =~= s@);
        assert(s@.subrange(0, 0) =~= Seq::<char>::empty());
        assert(strs_view(r@) =~= Seq::<Seq<char>>::empty());
        assert(strs_view(r@) + split_acc(s@, d, Seq::empty()) =~= split_acc(s@, d, Seq::empty()));
    }
    while i < len
        invariant
            0 <= start <= i <= len,
            len == s@.len(),
            split_spec(s@, d) == strs_view(r@) + split_acc(
                s@.subrange(i as int, len as int),
                d,
                s@.subrange(start as int, i as int),
            ),
        decreases len - i,
    {
        let c = s.get_char(i);
        proof {
            assert(s@.subrange(i as int, len as int).drop_first() =~= s@.subrange(
                i + 1,
                len as int,
            ));
        }
        if c == d {
            let piece = String::from_str(s.substring_char(start, i));
            proof {
                lemma_strs_view_push(r@, piece);
                assert(s@.subrange(i + 1, i + 1) =~= Seq::<char>::empty());
                assert(strs_view(r@.push(piece)) + split_acc(
                    s@.subrange(i + 1, len as int),
                    d,
                    Seq::empty(),
                ) =~= strs_view(r@) + (seq![piece@] + split_acc(
                    s@.subrange(i + 1, len as int),
                    d,
                    Seq::empty(),
                )));
            }
            r.push(piece);
            start = i + 1;
        } else {
            proof {
                assert(s@.subrange(start as int, i as int).push(s@[i as int]) =~= s@.subrange(
                    start as int,
                    i + 1,
                ));
            }
        }
        i = i + 1;
    }
    let piece = String::from_str(s.substring_char(start, len));
    proof {
        assert(s@.subrange(i as int, len as int) =~= Seq::<char>::empty());
        lemma_strs_view_push(r@, piece);
        assert(strs_view(r@.push(piece)) =~= strs_view(r@) + seq![piece@]);
    }
    r.push(piece);
    r
}

} // verus!

verus! {

pub proof fn lemma_trim_front_ends(s: Seq<char>)
    ensures
        trim_front(s).len() > 0 ==> !is_ws(trim_front(s)[0]),
        trim_front(s).len() > 0 ==> trim_front(s).last() == s.last(),
    decreases s.len(),
{
    if s.len() > 0 && is_ws(s[0]) {
        lemma_trim_front_ends(s.drop_first());
        if trim_front(s).len() > 0 {
            assert(s.drop_first().last() == s.last());
        }
    }
}

pub proof fn lemma_trim_back_ends(s: Seq<char>)
    ensures
        trim_back(s).len() > 0 ==> !is_ws(trim_back(s).last()),
        trim_back(s).len() > 0 ==> trim_back(s)[0] == s[0],
    decreases s.len(),
{
    if s.len() > 0 && is_ws(s.last()) {
        lemma_trim_back_ends(s.drop_last());
        if trim_back(s).len() > 0 {
            assert(s.drop_last()[0] == s[0]);
        }
    }
}

/// A non-empty line without whitespace at either edge trims to itself.
pub proof fn lemma_trim_fixed(s: Seq<char>)
    requires
        s.len() > 0,
        !is_ws(s[0]),
        !is_ws(s.last()),
    ensures
        trim_spec(s) == s,
{
}

/// A trimmed line has no whitespace at its edges.
pub proof fn lemma_trim_ends(s: Seq<char>)
    ensures
        trim_spec(s).len() > 0 ==> !is_ws(trim_spec(s)[0]),
        trim_spec(s).len() > 0 ==> !is_ws(trim_spec(s).last()),
{
    lemma_trim_front_ends(s);
    lemma_trim_back_ends(trim_front(s));
}

/// Whether two strings hold the same characters.
pub fn str_eq(a: &str, b: &str) -> (r: bool)
    ensures
        r == (a@ == b@),
{
    let la = a.unicode_len();
    let lb = b.unicode_len();
    if la != lb {
        return false;
    }
    let mut i: usize = 0;
    while i < la
        invariant
            i <= la,
            la == a@.len(),
            la == b@.len(),
            forall|q: int| 0 <= q < i ==> a@[q] == b@[q],
        decreases la - i,
    {
        if a.get_char(i) != b.get_char(i) {
            return false;
        }
        i = i + 1;
    }
    proof {
        assert(a@ =~= b@);
    }
    true
}

} // verus!
