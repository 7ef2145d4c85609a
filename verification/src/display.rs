use vstd::prelude::*;

use crate::utilities::{char_is_white_space, is_white_space, string_push};

verus! {

broadcast use vstd::string::group_string_axioms;

/// `s` without its leading white space.
pub open spec fn trim_start(s: Seq<char>) -> Seq<char>
    decreases s.len(),
{
    if s.len() > 0 && is_white_space(s[0]) {
        trim_start(s.drop_first())
    } else {
        s
    }
}

/// `s` without its trailing white space.
pub open spec fn trim_end(s: Seq<char>) -> Seq<char>
    decreases s.len(),
{
    if s.len() > 0 && is_white_space(s.last()) {
        trim_end(s.drop_last())
    } else {
        s
    }
}

/// `s` without leading and trailing white space: what `str::trim` gives.
pub open spec fn trim(s: Seq<char>) -> Seq<char> {
    trim_end(trim_start(s))
}

/// The pieces of `s` between the occurrences of `sep`: what `str::split` yields for a
/// one-character pattern (an empty `s` has one, empty, piece).
pub open spec fn split_on(s: Seq<char>, sep: char) -> Seq<Seq<char>>
    decreases s.len(),
{
    if s.len() == 0 {
        seq![Seq::empty()]
    } else {
        let p = split_on(s.drop_last(), sep);
        if s.last() == sep {
            p.push(Seq::empty())
        } else {
            p.drop_last().push(p.last().push(s.last()))
        }
    }
}

/// The two fields of a framebuffer `virtual_size` file ("width,height"): the trimmed
/// contents must hold exactly one comma, and each side of it is trimmed in turn.
pub open spec fn spec_virtual_size_fields(contents: Seq<char>) -> Option<(Seq<char>, Seq<char>)> {
    let parts = split_on(trim(contents), ',');
    if parts.len() == 2 {
        Some((trim(parts[0]), trim(parts[1])))
    } else {
        None
    }
}

proof fn lemma_trim_start(s: Seq<char>, k: int)
    requires
        0 <= k <= s.len(),
        forall|i: int| 0 <= i < k ==> is_white_space(#[trigger] s[i]),
        k == s.len() || !is_white_space(s[k]),
    ensures
        trim_start(s) == s.skip(k),
    decreases k,
{
    if k == 0 {
        assert(s.skip(0) =~= s);
    } else {
        let t = s.drop_first();
        assert forall|i: int| 0 <= i < k - 1 implies is_white_space(#[trigger] t[i]) by {
            assert(t[i] == s[i + 1]);
        }
        if k < s.len() {
            assert(t[k - 1] == s[k]);
        }
        lemma_trim_start(t, k - 1);
        assert(t.skip(k - 1) =~= s.skip(k));
    }
}

proof fn lemma_trim_end(s: Seq<char>, k: int)
    requires
        0 <= k <= s.len(),
        forall|i: int| k <= i < s.len() ==> is_white_space(#[trigger] s[i]),
        k == 0 || !is_white_space(s[k - 1]),
    ensures
        trim_end(s) == s.take(k),
    decreases s.len() - k,
{
    if k == s.len() {
        assert(s.take(k) =~= s);
    } else {
        let t = s.drop_last();
        assert(is_white_space(s[s.len() - 1]));
        assert forall|i: int| k <= i < t.len() implies is_white_space(#[trigger] t[i]) by {
            assert(t[i] == s[i]);
        }
        if k > 0 {
            assert(t[k - 1] == s[k - 1]);
        }
        lemma_trim_end(t, k);
        assert(t.take(k) =~= s.take(k));
    }
}

/// The positions of `v` from `lo` to `hi` without the white space at either end.
fn trim_bounds(v: &Vec<char>, lo: usize, hi: usize) -> (r: (usize, usize))
    requires
        lo <= hi <= v@.len(),
    ensures
        lo <= r.0 <= r.1 <= hi,
        v@.subrange(r.0 as int, r.1 as int) == trim(v@.subrange(lo as int, hi as int)),
{
    let ghost s = v@.subrange(lo as int, hi as int);
    let mut a = lo;
    while a < hi && char_is_white_space(v[a])
        invariant
            lo <= a <= hi <= v@.len(),
            forall|i: int| lo <= i < a ==> is_white_space(#[trigger] v@[i]),
        decreases hi - a,
    {
        a = a + 1;
    }
    proof {
        assert forall|i: int| 0 <= i < a - lo implies is_white_space(#[trigger] s[i]) by {
            assert(s[i] == v@[lo + i]);
        }
        if a < hi {
            assert(s[a - lo] == v@[a as int]);
        }
        lemma_trim_start(s, a - lo);
        assert(s.skip(a - lo) =~= v@.subrange(a as int, hi as int));
    }
    let ghost t = v@.subrange(a as int, hi as int);
    let mut b = hi;
    while b > a && char_is_white_space(v[b - 1])
        invariant
            lo <= a <= b <= hi <= v@.len(),
            forall|i: int| b <= i < hi ==> is_white_space(#[trigger] v@[i]),
        decreases b - a,
    {
        b = b - 1;
    }
    proof {
        assert forall|i: int| b - a <= i < t.len() implies is_white_space(#[trigger] t[i]) by {
            assert(t[i] == v@[a + i]);
        }
        if b > a {
            assert(t[b - a - 1] == v@[b - 1]);
        }
        lemma_trim_end(t, b - a);
        assert(t.take(b - a) =~= v@.subrange(a as int, b as int));
    }
    (a, b)
}

proof fn lemma_split_one(s: Seq<char>, sep: char, c: int, i: int)
    requires
        0 <= c < s.len(),
        s[c] == sep,
        forall|j: int| 0 <= j < s.len() && j != c ==> s[j] != sep,
        0 <= i <= s.len(),
    ensures
        i <= c ==> split_on(s.take(i), sep) == seq![s.take(i)],
        i > c ==> split_on(s.take(i), sep) == seq![s.take(c), s.subrange(c + 1, i)],
    decreases i,
{
    let t = s.take(i);
    if i == 0 {
        assert(t =~= Seq::<char>::empty());
    } else {
        lemma_split_one(s, sep, c, i - 1);
        assert(t.drop_last() =~= s.take(i - 1));
        assert(t.last() == s[i - 1]);
        if i - 1 == c {
            assert(s.take(i - 1) =~= s.take(c));
            assert(s.subrange(c + 1, i) =~= Seq::<char>::empty());
        } else if i - 1 < c {
            assert(s.take(i - 1).push(s[i - 1]) =~= t);
        } else {
            assert(s.subrange(c + 1, i - 1).push(s[i - 1]) =~= s.subrange(c + 1, i));
        }
    }
}

proof fn lemma_split_count(s: Seq<char>, sep: char, c1: int, c2: int)
    requires
        0 <= c1 < c2 < s.len(),
        s[c1] == sep,
        s[c2] == sep,
    ensures
        split_on(s, sep).len() >= 3,
    decreases s.len(),
{
    lemma_split_len_mono(s, sep);
    if c2 == s.len() - 1 {
        lemma_split_has_sep(s.drop_last(), sep, c1);
    } else {
        assert(s.drop_last()[c1] == sep && s.drop_last()[c2] == sep);
        lemma_split_count(s.drop_last(), sep, c1, c2);
    }
}

proof fn lemma_split_len_mono(s: Seq<char>, sep: char)
    ensures
        split_on(s, sep).len() >= 1,
        s.len() > 0 ==> split_on(s, sep).len() >= split_on(s.drop_last(), sep).len(),
    decreases s.len(),
{
    if s.len() > 0 {
        lemma_split_len_mono(s.drop_last(), sep);
    }
}

proof fn lemma_split_has_sep(s: Seq<char>, sep: char, c: int)
    requires
        0 <= c < s.len(),
        s[c] == sep,
    ensures
        split_on(s, sep).len() >= 2,
    decreases s.len(),
{
    lemma_split_len_mono(s, sep);
    if c < s.len() - 1 {
        assert(s.drop_last()[c] == sep);
        lemma_split_has_sep(s.drop_last(), sep, c);
    } else {
        lemma_split_len_mono(s.drop_last(), sep);
    }
}

proof fn lemma_split_no_sep(s: Seq<char>, sep: char)
    requires
        forall|j: int| 0 <= j < s.len() ==> s[j] != sep,
    ensures
        split_on(s, sep).len() == 1,
    decreases s.len(),
{
    if s.len() > 0 {
        assert forall|j: int| 0 <= j < s.drop_last().len() implies s.drop_last()[j] != sep by {
            assert(s.drop_last()[j] == s[j]);
        }
        lemma_split_no_sep(s.drop_last(), sep);
    }
}

fn chars_of(s: &str) -> (v: Vec<char>)
    ensures
        v@ == s@,
{
    let mut v: Vec<char> = Vec::new();
    for c in iter: s.chars()
        invariant
            iter.seq() == s@,
            v@ == s@.take(iter.index()),
    {
        let ghost i = iter.index();
        v.push(c);
        assert(v@ =~= s@.take(i + 1));
    }
    assert(s@.take(s@.len() as int) =~= s@);
    v
}

fn string_of(v: &Vec<char>, lo: usize, hi: usize) -> (r: String)
    requires
        lo <= hi <= v@.len(),
    ensures
        r@ == v@.subrange(lo as int, hi as int),
{
    let mut r = String::new();
    let mut i = lo;
    while i < hi
        invariant
            lo <= i <= hi <= v@.len(),
            r@ == v@.subrange(lo as int, i as int),
        decreases hi - i,
    {
        string_push(&mut r, v[i]);
        i = i + 1;
        assert(r@ =~= v@.subrange(lo as int, i as int));
    }
    r
}

/// Splits the contents of a framebuffer `virtual_size` file ("1920,1080") into its
/// width and height fields, as [`spec_virtual_size_fields`] says; `None` where the
/// contents do not hold exactly two fields.
pub fn virtual_size_fields(contents: &str) -> (r: Option<(String, String)>)
    ensures
        r is None <==> spec_virtual_size_fields(contents@) is None,
        r matches Some((w, h)) ==> spec_virtual_size_fields(contents@) == Some((w@, h@)),
{
    let v = chars_of(contents);
    let (a, b) = trim_bounds(&v, 0, v.len());
    let ghost t = v@.subrange(a as int, b as int);
    proof {
        assert(v@.subrange(0, v@.len() as int) =~= contents@);
    }
    let mut commas: usize = 0;
    let mut first: usize = a;
    let mut i = a;
    while i < b
        invariant
            a <= i <= b <= v@.len(),
            t == v@.subrange(a as int, b as int),
            commas <= 2,
            commas == 0 ==> forall|j: int| a <= j < i ==> v@[j] != ',',
            commas >= 1 ==> a <= first < i && v@[first as int] == ',',
            commas == 1 ==> forall|j: int| a <= j < i && j != first ==> v@[j] != ',',
            commas == 2 ==> exists|j: int| first < j < b && v@[j] == ',',
        decreases b - i,
    {
        if v[i] == ',' {
            if commas == 0 {
                first = i;
                commas = 1;
            } else if commas == 1 {
                commas = 2;
            }
        }
        i = i + 1;
    }
    if commas == 1 {
        let c = first - a;
        proof {
            assert(t[c as int] == ',');
            assert forall|j: int| 0 <= j < t.len() && j != c implies t[j] != ',' by {
                assert(t[j] == v@[a + j]);
            }
            lemma_split_one(t, ',', c as int, t.len() as int);
            assert(t.take(t.len() as int) =~= t);
            assert(t.take(c as int) =~= v@.subrange(a as int, first as int));
            assert(t.subrange(c + 1, t.len() as int) =~= v@.subrange(first + 1, b as int));
        }
        let (wa, wb) = trim_bounds(&v, a, first);
        let (ha, hb) = trim_bounds(&v, first + 1, b);
        Some((string_of(&v, wa, wb), string_of(&v, ha, hb)))
    } else {
        proof {
            if commas == 0 {
                assert forall|j: int| 0 <= j < t.len() implies t[j] != ',' by {
                    assert(t[j] == v@[a + j]);
                }
                lemma_split_no_sep(t, ',');
            } else {
                let j = choose|j: int| first < j < b && v@[j] == ',';
                assert(t[first - a] == ',' && t[j - a] == ',');
                lemma_split_count(t, ',', first - a, j - a);
            }
        }
        None
    }
}

/// The pieces `ps` joined with `sep` between each two.
pub open spec fn join_with(ps: Seq<Seq<char>>, sep: char) -> Seq<char>
    decreases ps.len(),
{
    if ps.len() == 0 {
        Seq::empty()
    } else if ps.len() == 1 {
        ps[0]
    } else {
        join_with(ps.drop_last(), sep) + seq![sep] + ps.last()
    }
}

/// Law: splitting cuts at every occurrence of the separator and nowhere else: no piece
/// holds the separator, there is at least one piece, and joining the pieces with the
/// separator gives the text back.
pub proof fn lemma_split_on_rejoins(s: Seq<char>, sep: char)
    ensures
        split_on(s, sep).len() >= 1,
        join_with(split_on(s, sep), sep) == s,
        forall|i: int, j: int|
            0 <= i < split_on(s, sep).len() && 0 <= j < split_on(s, sep)[i].len() ==> split_on(
                s,
                sep,
            )[i][j] != sep,
    decreases s.len(),
{
    if s.len() == 0 {
        assert(join_with(split_on(s, sep), sep) =~= s);
    } else {
        let t = s.drop_last();
        let x = s.last();
        lemma_split_on_rejoins(t, sep);
        let p = split_on(t, sep);
        let r = split_on(s, sep);
        if x == sep {
            assert(r.drop_last() =~= p);
            assert(join_with(r, sep) =~= join_with(p, sep) + seq![sep] + Seq::<char>::empty());
            assert(t.push(sep) =~= s);
            assert forall|i: int, j: int| 0 <= i < r.len() && 0 <= j < r[i].len() implies r[i][j]
                != sep by {
                assert(r[i] == p[i]);
            }
        } else {
            let q = p.last().push(x);
            assert(r == p.drop_last().push(q));
            if p.len() == 1 {
                assert(join_with(p, sep) == p[0]);
                assert(join_with(r, sep) == q);
                assert(q =~= t.push(x));
            } else {
                assert(r.drop_last() =~= p.drop_last());
                assert(join_with(p, sep) == join_with(p.drop_last(), sep) + seq![sep] + p.last());
                assert(join_with(r, sep) == join_with(p.drop_last(), sep) + seq![sep] + q);
                assert(join_with(r, sep) =~= join_with(p, sep).push(x));
            }
            assert(t.push(x) =~= s);
            assert forall|i: int, j: int| 0 <= i < r.len() && 0 <= j < r[i].len() implies r[i][j]
                != sep by {
                if i < r.len() - 1 {
                    assert(r[i] == p[i]);
                } else if j < p.last().len() {
                    assert(r[i][j] == p[p.len() - 1][j]);
                }
            }
        }
    }
}

proof fn lemma_trim_start_shape(s: Seq<char>)
    ensures
        exists|i: int|
            0 <= i <= s.len() && trim_start(s) == s.skip(i) && (forall|k: int|
                0 <= k < i ==> is_white_space(#[trigger] s[k])) && (i == s.len()
                || !is_white_space(s[i])),
    decreases s.len(),
{
    if s.len() > 0 && is_white_space(s[0]) {
        let t = s.drop_first();
        lemma_trim_start_shape(t);
        let i = choose|i: int|
            0 <= i <= t.len() && trim_start(t) == t.skip(i) && (forall|k: int|
                0 <= k < i ==> is_white_space(#[trigger] t[k])) && (i == t.len()
                || !is_white_space(t[i]));
        assert(t.skip(i) =~= s.skip(i + 1));
        assert forall|k: int| 0 <= k < i + 1 implies is_white_space(#[trigger] s[k]) by {
            if k > 0 {
                assert(s[k] == t[k - 1]);
            }
        }
        if i < t.len() {
            assert(s[i + 1] == t[i]);
        }
    } else {
        assert(s.skip(0) =~= s);
    }
}

proof fn lemma_trim_end_shape(s: Seq<char>)
    ensures
        exists|j: int|
            0 <= j <= s.len() && trim_end(s) == s.take(j) && (forall|k: int|
                j <= k < s.len() ==> is_white_space(#[trigger] s[k])) && (j == 0
                || !is_white_space(s[j - 1])),
    decreases s.len(),
{
    if s.len() > 0 && is_white_space(s.last()) {
        let t = s.drop_last();
        lemma_trim_end_shape(t);
        let j = choose|j: int|
            0 <= j <= t.len() && trim_end(t) == t.take(j) && (forall|k: int|
                j <= k < t.len() ==> is_white_space(#[trigger] t[k])) && (j == 0
                || !is_white_space(t[j - 1]));
        assert(t.take(j) =~= s.take(j));
        assert forall|k: int| j <= k < s.len() implies is_white_space(#[trigger] s[k]) by {
            if k < t.len() {
                assert(s[k] == t[k]);
            }
        }
        if j > 0 {
            assert(s[j - 1] == t[j - 1]);
        }
    } else {
        assert(s.take(s.len() as int) =~= s);
    }
}

/// Law: trimming keeps a stretch of the text and drops only white space around it:
/// the result is `s` from some `i` to some `j`, everything before `i` and from `j` on
/// is white space, and the result, unless empty, begins and ends with a character that
/// is not white space.
pub proof fn lemma_trim_shape(s: Seq<char>)
    ensures
        exists|i: int, j: int|
            {
                &&& 0 <= i <= j <= s.len()
                &&& trim(s) == s.subrange(i, j)
                &&& forall|k: int| 0 <= k < i ==> is_white_space(#[trigger] s[k])
                &&& forall|k: int| j <= k < s.len() ==> is_white_space(#[trigger] s[k])
                &&& i < j ==> !is_white_space(s[i]) && !is_white_space(s[j - 1])
            },
{
    lemma_trim_start_shape(s);
    let i = choose|i: int|
        0 <= i <= s.len() && trim_start(s) == s.skip(i) && (forall|k: int|
            0 <= k < i ==> is_white_space(#[trigger] s[k])) && (i == s.len() || !is_white_space(
            s[i],
        ));
    let t = s.skip(i);
    lemma_trim_end_shape(t);
    let j = choose|j: int|
        0 <= j <= t.len() && trim_end(t) == t.take(j) && (forall|k: int|
            j <= k < t.len() ==> is_white_space(#[trigger] t[k])) && (j == 0 || !is_white_space(
            t[j - 1],
        ));
    assert(t.take(j) =~= s.subrange(i, i + j));
    assert forall|k: int| i + j <= k < s.len() implies is_white_space(#[trigger] s[k]) by {
        assert(s[k] == t[k - i]);
    }
    if j > 0 {
        assert(s[i + j - 1] == t[j - 1]);
    }
    assert(trim(s) == s.subrange(i, i + j));
}

} // verus!
