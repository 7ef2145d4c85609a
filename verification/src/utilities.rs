use vstd::prelude::*;

verus! {

broadcast use vstd::string::group_string_axioms;

// ---------------------------------------------------------------------------
// Characters and their UTF-8 widths
// ---------------------------------------------------------------------------

/// The Unicode `White_Space` property: the characters that `char::is_whitespace`
/// accepts, and on which `str::split_whitespace` and `str::trim` act.
pub open spec fn is_white_space(c: char) -> bool {
    let u = c as u32;
    ||| u == 0x20
    ||| (0x09 <= u && u <= 0x0D)
    ||| u == 0x85
    ||| u == 0xA0
    ||| u == 0x1680
    ||| (0x2000 <= u && u <= 0x200A)
    ||| u == 0x2028
    ||| u == 0x2029
    ||| u == 0x202F
    ||| u == 0x205F
    ||| u == 0x3000
}

/// Executable test for [`is_white_space`].
pub fn char_is_white_space(c: char) -> (r: bool)
    ensures
        r == is_white_space(c),
{
    let u = c as u32;
    u == 0x20 || (0x09 <= u && u <= 0x0D) || u == 0x85 || u == 0xA0 || u == 0x1680 || (0x2000
        <= u && u <= 0x200A) || u == 0x2028 || u == 0x2029 || u == 0x202F || u == 0x205F || u
        == 0x3000
}

/// Number of bytes in the UTF-8 encoding of `c`.
pub open spec fn utf8_width(c: char) -> nat {
    let u = c as u32;
    if u < 0x80 {
        1
    } else if u < 0x800 {
        2
    } else if u < 0x10000 {
        3
    } else {
        4
    }
}

/// Number of bytes in the UTF-8 encoding of `s`: what `str::len` and `String::len` return.
pub open spec fn byte_len(s: Seq<char>) -> nat
    decreases s.len(),
{
    if s.len() == 0 {
        0
    } else {
        byte_len(s.drop_last()) + utf8_width(s.last())
    }
}

fn char_utf8_width(c: char) -> (r: u128)
    ensures
        r == utf8_width(c),
{
    let u = c as u32;
    if u < 0x80 {
        1
    } else if u < 0x800 {
        2
    } else if u < 0x10000 {
        3
    } else {
        4
    }
}

pub proof fn lemma_byte_len_push(s: Seq<char>, c: char)
    ensures
        byte_len(s.push(c)) == byte_len(s) + utf8_width(c),
{
    assert(s.push(c).drop_last() =~= s);
}

pub proof fn lemma_byte_len_concat(a: Seq<char>, b: Seq<char>)
    ensures
        byte_len(a + b) == byte_len(a) + byte_len(b),
    decreases b.len(),
{
    if b.len() == 0 {
        assert(a + b =~= a);
    } else {
        lemma_byte_len_concat(a, b.drop_last());
        assert((a + b).drop_last() =~= a + b.drop_last());
        assert((a + b).last() == b.last());
    }
}

/// Law: [`byte_len`] is the length of the UTF-8 encoding, the length that `str::len`
/// reports.
pub proof fn lemma_byte_len_is_utf8_len(s: Seq<char>)
    ensures
        byte_len(s) == vstd::utf8::encode_utf8(s).len(),
    decreases s.len(),
{
    if s.len() > 0 {
        let c = s[0];
        let t = s.drop_first();
        lemma_byte_len_is_utf8_len(t);
        vstd::utf8::char_is_scalar(c);
        assert(vstd::utf8::encode_scalar(c as u32).len() == utf8_width(c));
        lemma_byte_len_concat(seq![c], t);
        assert(seq![c] + t =~= s);
        assert(seq![c].drop_last() =~= Seq::<char>::empty());
        assert(byte_len(Seq::<char>::empty()) == 0);
        assert(seq![c].last() == c);
        assert(byte_len(seq![c]) == utf8_width(c));
    }
}

/// Appends one character to a string.
/// Trusted: `String::push`, which std documents as appending the given `char`
/// to the end of the string.
#[verifier::external_body]
pub(crate) fn string_push(s: &mut String, c: char)
    ensures
        final(s)@ == old(s)@.push(c),
{
    s.push(c);
}

// ---------------------------------------------------------------------------
// Lengths held in machine integers
// ---------------------------------------------------------------------------

/// Byte lengths are kept saturated at this bound, above every `usize`, so that
/// comparing them with a `usize` limit gives the answer exact arithmetic gives.
pub const LEN_CAP: u128 = 0x1_0000_0000_0000_0000u128;

/// `n`, or [`LEN_CAP`] if it is larger.
pub open spec fn sat(n: nat) -> nat {
    if n < LEN_CAP {
        n
    } else {
        LEN_CAP as nat
    }
}

// ---------------------------------------------------------------------------
// Words
// ---------------------------------------------------------------------------

/// The words of `s` in order: its maximal runs of characters that are not white space
/// (what `str::split_whitespace` yields).
pub open spec fn words(s: Seq<char>) -> Seq<Seq<char>>
    decreases s.len(),
{
    if s.len() == 0 {
        Seq::empty()
    } else {
        let prev = words(s.drop_last());
        let c = s.last();
        if is_white_space(c) {
            prev
        } else if s.len() >= 2 && !is_white_space(s[s.len() - 2]) {
            prev.drop_last().push(prev.last().push(c))
        } else {
            prev.push(seq![c])
        }
    }
}

/// No character of `s` is white space.
pub open spec fn no_white_space(s: Seq<char>) -> bool {
    forall|i: int| 0 <= i < s.len() ==> !is_white_space(#[trigger] s[i])
}

/// Every element of `ws` is a non-empty sequence without white space.
pub open spec fn all_words(ws: Seq<Seq<char>>) -> bool {
    forall|i: int| 0 <= i < ws.len() ==> (#[trigger] ws[i]).len() > 0 && no_white_space(ws[i])
}

pub proof fn lemma_words_are_words(s: Seq<char>)
    ensures
        all_words(words(s)),
        s.len() > 0 && !is_white_space(s.last()) ==> words(s).len() > 0,
    decreases s.len(),
{
    if s.len() > 0 {
        let p = s.drop_last();
        lemma_words_are_words(p);
        let prev = words(p);
        let c = s.last();
        if is_white_space(c) {
        } else if s.len() >= 2 && !is_white_space(s[s.len() - 2]) {
            assert(p.last() == s[s.len() - 2]);
            let w = prev.last().push(c);
            assert(no_white_space(prev[prev.len() - 1]));
            assert(no_white_space(w));
            let r = prev.drop_last().push(w);
            assert forall|i: int| 0 <= i < r.len() implies (#[trigger] r[i]).len() > 0
                && no_white_space(r[i]) by {
                if i < r.len() - 1 {
                    assert(r[i] == prev[i]);
                }
            }
        } else {
            let r = prev.push(seq![c]);
            assert forall|i: int| 0 <= i < r.len() implies (#[trigger] r[i]).len() > 0
                && no_white_space(r[i]) by {
                if i < r.len() - 1 {
                    assert(r[i] == prev[i]);
                }
            }
        }
    }
}

/// Law: a non-empty text without white space is a single word.
pub proof fn lemma_words_of_word(t: Seq<char>)
    requires
        t.len() > 0,
        no_white_space(t),
    ensures
        words(t) == seq![t],
    decreases t.len(),
{
    let p = t.drop_last();
    if p.len() == 0 {
        assert(words(p) =~= Seq::<Seq<char>>::empty());
        assert(seq![t.last()] =~= t);
    } else {
        assert(no_white_space(p)) by {
            assert forall|i: int| 0 <= i < p.len() implies !is_white_space(#[trigger] p[i]) by {
                assert(p[i] == t[i]);
            }
        }
        lemma_words_of_word(p);
        assert(t[t.len() - 2] == p.last());
        assert(!is_white_space(t.last()));
        assert(p.push(t.last()) =~= t);
        assert(words(t) =~= seq![t]);
    }
}

/// Law: words are split at white space and nowhere else: a white-space character
/// between two texts separates their words, so the words of `a`, a white-space
/// character and `b` are the words of `a` followed by the words of `b`.
pub proof fn lemma_words_split_at_white_space(a: Seq<char>, c: char, b: Seq<char>)
    requires
        is_white_space(c),
    ensures
        words(a + seq![c] + b) == words(a) + words(b),
    decreases b.len(),
{
    let s = a + seq![c] + b;
    if b.len() == 0 {
        assert(s.drop_last() =~= a);
        assert(words(b) =~= Seq::<Seq<char>>::empty());
        assert(words(a) + words(b) =~= words(a));
    } else {
        let b1 = b.drop_last();
        let x = b.last();
        lemma_words_split_at_white_space(a, c, b1);
        assert(s.drop_last() =~= a + seq![c] + b1);
        assert(s.last() == x);
        let pa = words(a);
        let pb = words(b1);
        if is_white_space(x) {
            assert(words(s) == words(a + seq![c] + b1));
            assert(words(b) == pb);
        } else if b.len() >= 2 && !is_white_space(b[b.len() - 2]) {
            assert(s[s.len() - 2] == b[b.len() - 2]);
            assert(b1.last() == b[b.len() - 2]);
            lemma_words_are_words(b1);
            assert(pb.len() > 0);
            let q = pa + pb;
            assert(q.drop_last() =~= pa + pb.drop_last());
            assert(q.last() == pb.last());
            assert(words(b) == pb.drop_last().push(pb.last().push(x)));
            assert(words(s) == q.drop_last().push(q.last().push(x)));
            assert(words(s) =~= pa + words(b));
        } else {
            if b.len() >= 2 {
                assert(s[s.len() - 2] == b[b.len() - 2]);
            } else {
                assert(s[s.len() - 2] == c);
                assert(b1 =~= Seq::<char>::empty());
                assert(pb =~= Seq::<Seq<char>>::empty());
            }
            assert(words(b) == pb.push(seq![x]));
            assert(words(s) == (pa + pb).push(seq![x]));
            assert(words(s) =~= pa + words(b));
        }
    }
}

/// Law: white space alone has no words.
pub proof fn lemma_words_of_white_space(s: Seq<char>)
    requires
        forall|i: int| 0 <= i < s.len() ==> is_white_space(#[trigger] s[i]),
    ensures
        words(s) == Seq::<Seq<char>>::empty(),
    decreases s.len(),
{
    if s.len() > 0 {
        assert forall|i: int| 0 <= i < s.drop_last().len() implies is_white_space(
            #[trigger] s.drop_last()[i],
        ) by {
            assert(s.drop_last()[i] == s[i]);
        }
        lemma_words_of_white_space(s.drop_last());
    }
}

// ---------------------------------------------------------------------------
// Greedy wrapping
// ---------------------------------------------------------------------------

/// The state after packing `ws` greedily into lines of at most `max` bytes:
/// the finished lines and the line under construction.
pub open spec fn wrap_state(ws: Seq<Seq<char>>, max: int) -> (Seq<Seq<char>>, Seq<char>)
    decreases ws.len(),
{
    if ws.len() == 0 {
        (Seq::empty(), Seq::empty())
    } else {
        let (done, cur) = wrap_state(ws.drop_last(), max);
        let w = ws.last();
        if cur.len() > 0 && byte_len(cur) + byte_len(w) + 1 > max {
            (done.push(cur), w)
        } else if cur.len() > 0 {
            (done, cur + seq![' '] + w)
        } else {
            (done, w)
        }
    }
}

/// Greedy line packing: each word goes on the current line, separated by one space,
/// unless the line is not empty and would then exceed `max` bytes, in which case
/// the line is finished and the word starts the next one.
pub open spec fn wrap_words(ws: Seq<Seq<char>>, max: int) -> Seq<Seq<char>> {
    let (done, cur) = wrap_state(ws, max);
    if cur.len() > 0 {
        done.push(cur)
    } else {
        done
    }
}

/// The lines that `word_wrap` returns for `text` and `max_len`.
pub open spec fn spec_word_wrap(text: Seq<char>, max_len: int) -> Seq<Seq<char>> {
    wrap_words(words(text), max_len)
}

/// The lines `ls` joined with single spaces.
pub open spec fn join_lines(ls: Seq<Seq<char>>) -> Seq<char>
    decreases ls.len(),
{
    if ls.len() == 0 {
        Seq::empty()
    } else if ls.len() == 1 {
        ls[0]
    } else {
        join_lines(ls.drop_last()) + seq![' '] + ls.last()
    }
}

/// The characters of `l` up to its first space.
pub open spec fn first_word(l: Seq<char>) -> Seq<char>
    decreases l.len(),
{
    if l.len() == 0 || l[0] == ' ' {
        Seq::empty()
    } else {
        seq![l[0]] + first_word(l.drop_first())
    }
}

/// A well-formed output line: not empty, without white space at either end, with no
/// white space but single spaces, and within `max` bytes unless it holds a single word.
pub open spec fn line_ok(l: Seq<char>, max: int) -> bool {
    &&& l.len() > 0
    &&& !is_white_space(l[0])
    &&& !is_white_space(l.last())
    &&& forall|j: int| 0 <= j < l.len() && is_white_space(#[trigger] l[j]) ==> l[j] == ' '
    &&& forall|j: int| 0 <= j < l.len() - 1 && #[trigger] l[j] == ' ' ==> l[j + 1] != ' '
    &&& (byte_len(l) <= max || no_white_space(l))
}

/// In `ls`, no line could have taken the first word of the line after it.
pub open spec fn greedy(ls: Seq<Seq<char>>, max: int) -> bool {
    forall|i: int|
        0 <= i < ls.len() - 1 ==> byte_len(#[trigger] ls[i]) + 1 + byte_len(first_word(ls[i + 1]))
            > max
}

proof fn lemma_first_word_of_word(w: Seq<char>)
    requires
        no_white_space(w),
    ensures
        first_word(w) == w,
    decreases w.len(),
{
    if w.len() > 0 {
        assert(!is_white_space(w[0]));
        assert(no_white_space(w.drop_first())) by {
            assert forall|i: int| 0 <= i < w.drop_first().len() implies !is_white_space(
                #[trigger] w.drop_first()[i],
            ) by {
                assert(w.drop_first()[i] == w[i + 1]);
            }
        }
        lemma_first_word_of_word(w.drop_first());
        assert(seq![w[0]] + w.drop_first() =~= w);
    }
}

proof fn lemma_first_word_extend(c: Seq<char>, w: Seq<char>)
    ensures
        first_word(c + seq![' '] + w) == first_word(c),
    decreases c.len(),
{
    let e = c + seq![' '] + w;
    if c.len() == 0 {
        assert(e[0] == ' ');
    } else {
        assert(e[0] == c[0]);
        if c[0] != ' ' {
            assert(e.drop_first() =~= c.drop_first() + seq![' '] + w);
            lemma_first_word_extend(c.drop_first(), w);
        }
    }
}

proof fn lemma_wrap_state(ws: Seq<Seq<char>>, max: int)
    requires
        all_words(ws),
    ensures
        ({
            let (d, c) = wrap_state(ws, max);
            &&& (ws.len() > 0 <==> c.len() > 0)
            &&& ws.len() == 0 ==> d.len() == 0
            &&& ws.len() > 0 ==> join_lines(d.push(c)) == join_lines(ws)
            &&& forall|i: int| 0 <= i < d.len() ==> line_ok(#[trigger] d[i], max)
            &&& ws.len() > 0 ==> line_ok(c, max)
            &&& greedy(d.push(c), max)
        }),
    decreases ws.len(),
{
    if ws.len() > 0 {
        let p = ws.drop_last();
        assert(all_words(p)) by {
            assert forall|i: int| 0 <= i < p.len() implies (#[trigger] p[i]).len() > 0
                && no_white_space(p[i]) by {
                assert(p[i] == ws[i]);
            }
        }
        lemma_wrap_state(p, max);
        let (d, c) = wrap_state(p, max);
        let w = ws.last();
        assert(w == ws[ws.len() - 1]);
        assert(w.len() > 0 && no_white_space(w));
        lemma_first_word_of_word(w);
        assert(line_ok(w, max));
        if c.len() > 0 && byte_len(c) + byte_len(w) + 1 > max {
            let d2 = d.push(c);
            assert(d2.push(w).drop_last() =~= d2);
            assert(forall|i: int| 0 <= i < d2.len() ==> line_ok(#[trigger] d2[i], max)) by {
                assert forall|i: int| 0 <= i < d2.len() implies line_ok(#[trigger] d2[i], max) by {
                    if i < d.len() {
                        assert(d2[i] == d[i]);
                    }
                }
            }
            let n = d2.push(w);
            assert forall|i: int| 0 <= i < n.len() - 1 implies byte_len(#[trigger] n[i]) + 1
                + byte_len(first_word(n[i + 1])) > max by {
                if i < n.len() - 2 {
                    assert(n[i] == d.push(c)[i]);
                    assert(n[i + 1] == d.push(c)[i + 1]);
                }
            }
        } else if c.len() > 0 {
            let c2 = c + seq![' '] + w;
            lemma_byte_len_push(c, ' ');
            lemma_byte_len_concat(c.push(' '), w);
            assert(c + seq![' '] + w =~= c.push(' ') + w);
            lemma_first_word_extend(c, w);
            assert(c2.last() == w.last());
            assert(c2[0] == c[0]);
            assert forall|j: int| 0 <= j < c2.len() && is_white_space(#[trigger] c2[j]) implies c2[j]
                == ' ' by {
                if j < c.len() {
                    assert(c2[j] == c[j]);
                } else if j > c.len() {
                    assert(c2[j] == w[j - c.len() - 1]);
                }
            }
            assert forall|j: int| 0 <= j < c2.len() - 1 && #[trigger] c2[j] == ' ' implies c2[j
                + 1] != ' ' by {
                if j < c.len() - 1 {
                    assert(c2[j] == c[j] && c2[j + 1] == c[j + 1]);
                } else if j == c.len() - 1 {
                    assert(c2[j] == c.last());
                } else if j == c.len() {
                    assert(c2[j + 1] == w[0]);
                } else {
                    assert(c2[j] == w[j - c.len() - 1]);
                }
            }
            assert(line_ok(c2, max));
            if d.len() == 0 {
                assert(join_lines(d.push(c2)) == c2);
                assert(join_lines(d.push(c)) == c);
            } else {
                assert(d.push(c2).drop_last() =~= d);
                assert(d.push(c).drop_last() =~= d);
                assert(join_lines(d.push(c2)) =~= join_lines(d) + seq![' '] + c + seq![' '] + w);
            }
            assert(join_lines(ws) =~= join_lines(p) + seq![' '] + w);
            let n = d.push(c2);
            assert forall|i: int| 0 <= i < n.len() - 1 implies byte_len(#[trigger] n[i]) + 1
                + byte_len(first_word(n[i + 1])) > max by {
                assert(n[i] == d.push(c)[i]);
                if i < n.len() - 2 {
                    assert(n[i + 1] == d.push(c)[i + 1]);
                }
            }
        } else {
            assert(p.len() == 0);
            assert(join_lines(ws) == w);
            assert(join_lines(d.push(w)) == w);
        }
    }
}

proof fn lemma_wrap_state_wider(ws: Seq<Seq<char>>, m1: int, m2: int)
    requires
        all_words(ws),
        m1 <= m2,
    ensures
        ({
            let (d1, c1) = wrap_state(ws, m1);
            let (d2, c2) = wrap_state(ws, m2);
            ||| d2.len() < d1.len()
            ||| d2.len() == d1.len() && byte_len(c2) <= byte_len(c1)
        }),
    decreases ws.len(),
{
    if ws.len() > 0 {
        let p = ws.drop_last();
        assert(all_words(p)) by {
            assert forall|i: int| 0 <= i < p.len() implies (#[trigger] p[i]).len() > 0
                && no_white_space(p[i]) by {
                assert(p[i] == ws[i]);
            }
        }
        lemma_wrap_state_wider(p, m1, m2);
        lemma_wrap_state(p, m1);
        lemma_wrap_state(p, m2);
        let (d1, c1) = wrap_state(p, m1);
        let (d2, c2) = wrap_state(p, m2);
        let w = ws.last();
        lemma_byte_len_push(c1, ' ');
        lemma_byte_len_concat(c1.push(' '), w);
        assert(c1 + seq![' '] + w =~= c1.push(' ') + w);
        lemma_byte_len_push(c2, ' ');
        lemma_byte_len_concat(c2.push(' '), w);
        assert(c2 + seq![' '] + w =~= c2.push(' ') + w);
    }
}

/// Law: a wider limit never gives more lines.
pub proof fn lemma_word_wrap_wider_fewer_lines(text: Seq<char>, m1: int, m2: int)
    requires
        m1 <= m2,
    ensures
        spec_word_wrap(text, m2).len() <= spec_word_wrap(text, m1).len(),
{
    let ws = words(text);
    lemma_words_are_words(text);
    lemma_wrap_state(ws, m1);
    lemma_wrap_state(ws, m2);
    lemma_wrap_state_wider(ws, m1, m2);
}

/// Law: joining the lines of `word_wrap` with single spaces gives the words of the
/// text joined with single spaces, so no word is lost, split, altered or reordered.
pub proof fn lemma_word_wrap_keeps_words(text: Seq<char>, max_len: int)
    ensures
        join_lines(spec_word_wrap(text, max_len)) == join_lines(words(text)),
{
    let ws = words(text);
    lemma_words_are_words(text);
    lemma_wrap_state(ws, max_len);
    let (d, c) = wrap_state(ws, max_len);
    if ws.len() == 0 {
        assert(spec_word_wrap(text, max_len) == d);
    }
}

/// Law: a non-empty text without white space is wrapped as one line holding it,
/// whatever the limit.
pub proof fn lemma_word_wrap_of_word(t: Seq<char>, max_len: int)
    requires
        t.len() > 0,
        no_white_space(t),
    ensures
        spec_word_wrap(t, max_len) == seq![t],
{
    lemma_words_of_word(t);
    let ws = words(t);
    assert(ws.drop_last() =~= Seq::<Seq<char>>::empty());
    assert(ws.last() == t);
    assert(wrap_state(ws.drop_last(), max_len) == (Seq::<Seq<char>>::empty(), Seq::<char>::empty()));
    assert(wrap_state(ws, max_len) == (Seq::<Seq<char>>::empty(), t));
    assert(Seq::<Seq<char>>::empty().push(t) =~= seq![t]);
}

/// Law: every line of `word_wrap` is non-empty, begins and ends with a character that
/// is not white space (so trimming it changes nothing), holds no white space but single
/// spaces between words, and is at most `max_len` bytes long unless it is a single word.
pub proof fn lemma_word_wrap_lines_fit(text: Seq<char>, max_len: int)
    ensures
        forall|i: int|
            0 <= i < spec_word_wrap(text, max_len).len() ==> line_ok(
                #[trigger] spec_word_wrap(text, max_len)[i],
                max_len,
            ),
{
    let ws = words(text);
    lemma_words_are_words(text);
    lemma_wrap_state(ws, max_len);
    let (d, c) = wrap_state(ws, max_len);
    let ls = spec_word_wrap(text, max_len);
    assert forall|i: int| 0 <= i < ls.len() implies line_ok(#[trigger] ls[i], max_len) by {
        if c.len() > 0 && i < d.len() {
            assert(ls[i] == d[i]);
        }
    }
}

/// Law: the wrapping is greedy: no line could have taken the first word of the next
/// line without exceeding `max_len` bytes.
pub proof fn lemma_word_wrap_greedy(text: Seq<char>, max_len: int)
    ensures
        greedy(spec_word_wrap(text, max_len), max_len),
{
    let ws = words(text);
    lemma_words_are_words(text);
    lemma_wrap_state(ws, max_len);
}

/// Splits `text` into its words, with the saturated byte length of each.
fn split_words(text: &str) -> (res: (Vec<String>, Vec<u128>))
    ensures
        res.0@.map_values(|w: String| w@) == words(text@),
        res.1@.len() == res.0@.len(),
        forall|k: int| 0 <= k < res.1@.len() ==> #[trigger] res.1@[k] == sat(byte_len(res.0@[k]@)),
{
    let mut out: Vec<String> = Vec::new();
    let mut lens: Vec<u128> = Vec::new();
    let mut word = String::new();
    let mut wlen: u128 = 0;
    let ghost s = text@;

    for c in iter: text.chars()
        invariant
            iter.seq() == s,
            s == text@,
            lens@.len() == out@.len(),
            forall|k: int| 0 <= k < lens@.len() ==> #[trigger] lens@[k] == sat(byte_len(out@[k]@)),
            wlen == sat(byte_len(word@)),
            word@.len() > 0 <==> (iter.index() > 0 && !is_white_space(s[iter.index() - 1])),
            word@.len() > 0 ==> words(s.take(iter.index())) == out@.map_values(|w: String| w@).push(
                word@,
            ),
            word@.len() == 0 ==> words(s.take(iter.index())) == out@.map_values(|w: String| w@),
    {
        let ghost i = iter.index();
        let ghost prev_out = out@;
        proof {
            assert(s.take(i + 1).drop_last() =~= s.take(i));
            assert(s.take(i + 1).last() == c);
        }
        if char_is_white_space(c) {
            if word.as_str().is_empty() {
            } else {
                out.push(word);
                lens.push(wlen);
                word = String::new();
                wlen = 0;
                assert(out@.map_values(|w: String| w@) =~= prev_out.map_values(|w: String| w@).push(
                    out@[out@.len() - 1]@,
                ));
            }
        } else {
            let ghost old_word = word@;
            let cw = char_utf8_width(c);
            proof {
                lemma_byte_len_push(word@, c);
            }
            string_push(&mut word, c);
            wlen = if wlen + cw >= LEN_CAP {
                LEN_CAP
            } else {
                wlen + cw
            };
            proof {
                if old_word.len() > 0 {
                    assert(s.take(i + 1)[s.take(i + 1).len() - 2] == s[i - 1]);
                    let ws = out@.map_values(|w: String| w@);
                    assert(ws.push(old_word).drop_last() =~= ws);
                    assert(words(s.take(i + 1)) =~= ws.push(old_word.push(c)));
                } else {
                    if i > 0 {
                        assert(s.take(i + 1)[s.take(i + 1).len() - 2] == s[i - 1]);
                    }
                    let ws = out@.map_values(|w: String| w@);
                    assert(old_word.push(c) =~= seq![c]);
                    assert(words(s.take(i + 1)) =~= ws.push(seq![c]));
                }
            }
        }
    }
    proof {
        assert(s.take(s.len() as int) =~= s);
    }
    if !word.as_str().is_empty() {
        let ghost prev_out = out@;
        out.push(word);
        lens.push(wlen);
        assert(out@.map_values(|w: String| w@) =~= prev_out.map_values(|w: String| w@).push(
            out@[out@.len() - 1]@,
        ));
    }
    (out, lens)
}

/// Wraps `text` into lines of at most `max_len` bytes, breaking only at white space.
///
/// The words of `text` (its runs of non-white-space characters) are placed in order,
/// separated by single spaces; a word that would make a non-empty line longer than
/// `max_len` bytes starts a new line. A single word longer than `max_len` stands on a
/// line of its own.
pub fn word_wrap(text: &str, max_len: usize) -> (lines: Vec<String>)
    ensures
        lines@.map_values(|l: String| l@) == spec_word_wrap(text@, max_len as int),
{
    let (ws, lens) = split_words(text);
    let ghost wsv = ws@.map_values(|w: String| w@);
    proof {
        lemma_words_are_words(text@);
    }
    let mut lines: Vec<String> = Vec::new();
    let mut line = String::new();
    let mut line_len: u128 = 0;
    let mut k: usize = 0;
    while k < ws.len()
        invariant
            k <= ws@.len(),
            wsv == ws@.map_values(|w: String| w@),
            wsv == words(text@),
            lens@.len() == ws@.len(),
            forall|j: int| 0 <= j < lens@.len() ==> #[trigger] lens@[j] == sat(byte_len(ws@[j]@)),
            all_words(wsv),
            wrap_state(wsv.take(k as int), max_len as int) == (
                lines@.map_values(|l: String| l@),
                line@,
            ),
            line_len == sat(byte_len(line@)),
        decreases ws@.len() - k,
    {
        let ghost prev_lines = lines@;
        let ghost prev_line = line@;
        let w = &ws[k];
        let wl = lens[k];
        proof {
            assert(wsv.take(k + 1).drop_last() =~= wsv.take(k as int));
            assert(wsv.take(k + 1).last() == wsv[k as int]);
            assert(wsv[k as int] == w@);
        }
        let too_long = line_len + wl + 1 > max_len as u128;
        if !line.as_str().is_empty() && too_long {
            lines.push(line);
            line = String::new();
            line_len = 0;
            assert(lines@.map_values(|l: String| l@) =~= prev_lines.map_values(|l: String| l@).push(
                prev_line,
            ));
        }
        if !line.as_str().is_empty() {
            proof {
                lemma_byte_len_push(line@, ' ');
                lemma_byte_len_concat(line@.push(' '), w@);
                assert(line@ + seq![' '] + w@ =~= line@.push(' ') + w@);
            }
            string_push(&mut line, ' ');
            line.append(w.as_str());
            let sum = line_len + 1 + wl;
            line_len = if sum >= LEN_CAP {
                LEN_CAP
            } else {
                sum
            };
        } else {
            line.append(w.as_str());
            line_len = wl;
            assert(line@ =~= w@);
        }
        k = k + 1;
    }
    proof {
        assert(wsv.take(ws@.len() as int) =~= wsv);
    }
    if !line.as_str().is_empty() {
        let ghost prev_lines = lines@;
        let ghost prev_line = line@;
        lines.push(line);
        assert(lines@.map_values(|l: String| l@) =~= prev_lines.map_values(|l: String| l@).push(
            prev_line,
        ));
    }
    lines
}

// ---------------------------------------------------------------------------
// Unsigned numbers
// ---------------------------------------------------------------------------

pub open spec fn is_ascii_digit(c: char) -> bool {
    '0' <= c && c <= '9'
}

pub open spec fn digit_value(c: char) -> nat {
    (c as u32 - '0' as u32) as nat
}

/// The number that the decimal digits `d` denote.
pub open spec fn digits_value(d: Seq<char>) -> nat
    decreases d.len(),
{
    if d.len() == 0 {
        0
    } else {
        digits_value(d.drop_last()) * 10 + digit_value(d.last())
    }
}

pub open spec fn all_digits(d: Seq<char>) -> bool {
    forall|i: int| 0 <= i < d.len() ==> is_ascii_digit(#[trigger] d[i])
}

/// `s` without one leading `+`, if it has one.
pub open spec fn unsigned_digits(s: Seq<char>) -> Seq<char> {
    if s.len() > 0 && s[0] == '+' {
        s.drop_first()
    } else {
        s
    }
}

/// What `str::parse::<u32>` gives, `None` standing for its error: an optional `+`
/// followed by at least one ASCII digit, denoting a number that fits in a `u32`.
pub open spec fn spec_parse_u32(s: Seq<char>) -> Option<u32> {
    let d = unsigned_digits(s);
    if d.len() > 0 && all_digits(d) && digits_value(d) <= u32::MAX {
        Some(digits_value(d) as u32)
    } else {
        None
    }
}

/// Reads `s` as a decimal `u32` the way `str::parse::<u32>` does.
pub fn parse_u32(s: &str) -> (r: Option<u32>)
    ensures
        r == spec_parse_u32(s@),
{
    let ghost ds = unsigned_digits(s@);
    let ghost off: int = s@.len() - ds.len();
    let mut value: u64 = 0;
    let mut bad = false;
    let mut overflow = false;
    let mut any = false;
    let mut at_start = true;
    for c in iter: s.chars()
        invariant
            iter.seq() == s@,
            ds == unsigned_digits(s@),
            off == s@.len() - ds.len(),
            off == 0 || off == 1,
            off == 1 ==> s@.len() > 0 && s@[0] == '+',
            off == 0 ==> ds == s@,
            at_start <==> iter.index() == 0,
            iter.index() < off ==> !bad && !overflow && !any && value == 0,
            iter.index() >= off ==> (any <==> ds.take(iter.index() - off).len() > 0),
            iter.index() >= off ==> (bad <==> !all_digits(ds.take(iter.index() - off))),
            iter.index() >= off ==> (!bad ==> (overflow <==> digits_value(ds.take(iter.index() - off)) > u32::MAX)),
            iter.index() >= off ==> ((!bad && !overflow) ==> value == digits_value(ds.take(iter.index() - off))),
    {
        let ghost i = iter.index();
        if at_start && c == '+' {
            assert(off == 1) by {
                if off == 0 {
                    assert(ds[0] == '+');
                    assert(ds.take(0).len() == 0);
                }
            }
            assert(ds.take(0) =~= Seq::<char>::empty());
            assert(digits_value(ds.take(0)) == 0);
            at_start = false;
        } else {
            at_start = false;
            proof {
                if off == 1 {
                    assert(i >= 1) by {
                        if i == 0 {
                            assert(c == s@[0]);
                        }
                    }
                }
                assert(ds.take(i - off + 1).drop_last() =~= ds.take(i - off));
                assert(ds[i - off] == s@[i]);
                assert(ds.take(i - off + 1).last() == c);
            }
            any = true;
            if !(c >= '0' && c <= '9') {
                bad = true;
                assert(!is_ascii_digit(ds.take(i - off + 1)[i - off]));
            } else if !bad {
                assert(all_digits(ds.take(i - off + 1))) by {
                    assert forall|k: int| 0 <= k < ds.take(i - off + 1).len() implies is_ascii_digit(
                        #[trigger] ds.take(i - off + 1)[k],
                    ) by {
                        if k < i - off {
                            assert(ds.take(i - off + 1)[k] == ds.take(i - off)[k]);
                        }
                    }
                }
                let ghost np = ds.take(i - off + 1);
                let ghost pp = ds.take(i - off);
                assert(digits_value(np) == digits_value(pp) * 10 + digit_value(c));
                if !overflow {
                    let d = (c as u32 - '0' as u32) as u64;
                    assert(d == digit_value(c));
                    let v = value * 10 + d;
                    if v > 0xFFFF_FFFF {
                        overflow = true;
                    } else {
                        value = v;
                    }
                }
            } else {
                assert(!all_digits(ds.take(i - off + 1))) by {
                    let k = choose|k: int| 0 <= k < ds.take(i - off).len() && !is_ascii_digit(
                        #[trigger] ds.take(i - off)[k],
                    );
                    assert(ds.take(i - off + 1)[k] == ds.take(i - off)[k]);
                }
            }
        }
    }
    proof {
        assert(ds.take(ds.len() as int) =~= ds);
    }
    if any && !bad && !overflow {
        Some(value as u32)
    } else {
        None
    }
}

/// The character of decimal digit `d`.
pub open spec fn digit_char(d: nat) -> char {
    (d + 48) as char
}

/// The decimal form of `n`, as `u32`'s `Display` writes it: no sign, no leading zeros.
pub open spec fn decimal(n: nat) -> Seq<char>
    decreases n,
{
    if n < 10 {
        seq![digit_char(n)]
    } else {
        decimal(n / 10).push(digit_char(n % 10))
    }
}

/// Appends the decimal form of `n` to `s`.
pub fn push_decimal(s: &mut String, n: u32)
    ensures
        final(s)@ == old(s)@ + decimal(n as nat),
    decreases n,
{
    if n >= 10 {
        push_decimal(s, n / 10);
    }
    let d = (n % 10) as u8;
    let c = (d + 48u8) as char;
    string_push(s, c);
    assert(c == digit_char((n % 10) as nat));
    proof {
        if n >= 10 {
            assert(decimal(n as nat) == decimal((n / 10) as nat).push(digit_char((n % 10) as nat)));
        }
    }
    assert(final(s)@ =~= old(s)@ + decimal(n as nat));
}

/// Law: reading back the decimal form of a number gives the number: what
/// [`push_decimal`] writes, [`parse_u32`] reads.
pub proof fn lemma_parse_decimal(n: u32)
    ensures
        spec_parse_u32(decimal(n as nat)) == Some(n),
{
    lemma_decimal_digits(n as nat);
    assert(decimal(n as nat)[0] != '+');
    assert(unsigned_digits(decimal(n as nat)) == decimal(n as nat));
}

proof fn lemma_decimal_digits(n: nat)
    ensures
        decimal(n).len() > 0,
        all_digits(decimal(n)),
        digits_value(decimal(n)) == n,
    decreases n,
{
    if n >= 10 {
        lemma_decimal_digits(n / 10);
        let d = decimal(n);
        let p = decimal(n / 10);
        assert(d.drop_last() =~= p);
        assert(digit_value(digit_char(n % 10)) == n % 10);
        assert(d.last() == digit_char(n % 10));
        assert(digits_value(d) == digits_value(p) * 10 + digit_value(d.last()));
        assert((n / 10) * 10 + n % 10 == n) by (nonlinear_arith);
        assert forall|i: int| 0 <= i < d.len() implies is_ascii_digit(#[trigger] d[i]) by {
            if i < p.len() {
                assert(d[i] == p[i]);
            }
        }
    } else {
        assert(digit_value(digit_char(n)) == n);
        assert(decimal(n).drop_last() =~= Seq::<char>::empty());
        assert(digits_value(Seq::<char>::empty()) == 0);
        assert(digits_value(decimal(n)) == digits_value(decimal(n).drop_last()) * 10 + digit_value(
            decimal(n).last(),
        ));
    }
}

proof fn lemma_digits_value_leading_zero(t: Seq<char>)
    ensures
        digits_value(seq!['0'] + t) == digits_value(t),
    decreases t.len(),
{
    if t.len() == 0 {
        assert((seq!['0'] + t).drop_last() =~= Seq::<char>::empty());
        assert((seq!['0'] + t).last() == '0');
        assert(digits_value(Seq::<char>::empty()) == 0);
    } else {
        lemma_digits_value_leading_zero(t.drop_last());
        assert((seq!['0'] + t).drop_last() =~= seq!['0'] + t.drop_last());
        assert((seq!['0'] + t).last() == t.last());
    }
}

/// Law: what `parse_u32` refuses: the empty text, a lone `+`, and any text holding a
/// character that is not an ASCII digit, other than one leading `+`.
pub proof fn lemma_parse_u32_refuses(s: Seq<char>)
    ensures
        s.len() == 0 ==> spec_parse_u32(s) is None,
        s == seq!['+'] ==> spec_parse_u32(s) is None,
        (exists|i: int| 0 <= i < s.len() && !is_ascii_digit(#[trigger] s[i]) && !(i == 0 && s[0] == '+'))
            ==> spec_parse_u32(s) is None,
{
    if exists|i: int| 0 <= i < s.len() && !is_ascii_digit(#[trigger] s[i]) && !(i == 0 && s[0] == '+') {
        let i = choose|i: int| 0 <= i < s.len() && !is_ascii_digit(#[trigger] s[i]) && !(i == 0 && s[0] == '+');
        let d = unsigned_digits(s);
        if s.len() > 0 && s[0] == '+' {
            assert(d[i - 1] == s[i]);
        } else {
            assert(d[i] == s[i]);
        }
    }
    if s == seq!['+'] {
        assert(unsigned_digits(s).len() == 0);
    }
}

/// Law: one leading `+` and leading zeros (before a text that does not begin with `+`)
/// do not change the number read, and a text of
/// ASCII digits with a value that fits is read as that value.
pub proof fn lemma_parse_u32_reads_digits(t: Seq<char>)
    ensures
        t.len() > 0 && t[0] != '+' ==> spec_parse_u32(seq!['+'] + t) == spec_parse_u32(t),
        t.len() > 0 && t[0] != '+' ==> spec_parse_u32(seq!['0'] + t) == spec_parse_u32(t),
        t.len() > 0 && all_digits(t) && digits_value(t) <= u32::MAX ==> spec_parse_u32(t) == Some(
            digits_value(t) as u32,
        ),
{
    if t.len() > 0 {
        assert((seq!['+'] + t)[0] == '+');
        assert((seq!['+'] + t).drop_first() =~= t);
        let z = seq!['0'] + t;
        assert(z[0] == '0');
        assert(unsigned_digits(z) == z);
        lemma_digits_value_leading_zero(t);
        if t[0] != '+' {
            assert(unsigned_digits(t) == t);
            assert(all_digits(z) <==> all_digits(t)) by {
                if all_digits(t) {
                    assert forall|i: int| 0 <= i < z.len() implies is_ascii_digit(#[trigger] z[i]) by {
                        if i > 0 {
                            assert(z[i] == t[i - 1]);
                        }
                    }
                }
                if all_digits(z) {
                    assert forall|i: int| 0 <= i < t.len() implies is_ascii_digit(#[trigger] t[i]) by {
                        assert(z[i + 1] == t[i]);
                    }
                }
            }
        }
    }
}

} // verus!
