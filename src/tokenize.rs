//! Splitting text into words and taking punctuation out of them.
use vstd::prelude::*;

verus! {

/// The characters that `char::is_whitespace` accepts: those with the Unicode
/// `White_Space` property.
pub open spec fn is_space(c: char) -> bool {
    let u = c as u32;
    (9 <= u && u <= 13) || u == 32 || u == 0x85 || u == 0xA0 || u == 0x1680 || (0x2000 <= u
        && u <= 0x200A) || u == 0x2028 || u == 0x2029 || u == 0x202F || u == 0x205F || u
        == 0x3000
}

/// The characters that `char::is_ascii_punctuation` accepts.
pub open spec fn is_punct(c: char) -> bool {
    let u = c as u32;
    (33 <= u && u <= 47) || (58 <= u && u <= 64) || (91 <= u && u <= 96) || (123 <= u && u
        <= 126)
}

/// `s` without its ASCII punctuation, the other characters in their order.
pub open spec fn strip(s: Seq<char>) -> Seq<char>
    decreases s.len(),
{
    if s.len() == 0 {
        Seq::empty()
    } else if is_punct(s.last()) {
        strip(s.drop_last())
    } else {
        strip(s.drop_last()).push(s.last())
    }
}

/// The maximal runs of non-space characters of `s`, from left to right.
pub open spec fn words(s: Seq<char>) -> Seq<Seq<char>>
    decreases s.len(),
{
    if s.len() == 0 {
        Seq::empty()
    } else {
        let prev = words(s.drop_last());
        let c = s.last();
        if is_space(c) {
            prev
        } else if s.len() > 1 && !is_space(s[s.len() - 2]) {
            prev.drop_last().push(prev.last().push(c))
        } else {
            prev.push(seq![c])
        }
    }
}

/// The views of a sequence of strings.
pub open spec fn views(v: Seq<String>) -> Seq<Seq<char>> {
    v.map_values(|s: String| s@)
}

/// Tells whether `c` is whitespace.
pub fn is_space_char(c: char) -> (r: bool)
    ensures
        r == is_space(c),
{
    let u = c as u32;
    (9 <= u && u <= 13) || u == 32 || u == 0x85 || u == 0xA0 || u == 0x1680 || (0x2000 <= u
        && u <= 0x200A) || u == 0x2028 || u == 0x2029 || u == 0x202F || u == 0x205F || u
        == 0x3000
}

/// Tells whether `c` is an ASCII punctuation character.
pub fn is_punct_char(c: char) -> (r: bool)
    ensures
        r == is_punct(c),
{
    let u = c as u32;
    (33 <= u && u <= 47) || (58 <= u && u <= 64) || (91 <= u && u <= 96) || (123 <= u && u
        <= 126)
}

/// Relies on `String::push`: it appends one character.
#[verifier::external_body]
pub(crate) fn push_char(s: &mut String, c: char)
    ensures
        final(s)@ == old(s)@.push(c),
{
    s.push(c)
}

/// Takes the ASCII punctuation out of a string.
pub trait RemovePunctuation: View<V = Seq<char>> {
    fn remove_punctuation(&self) -> (r: String)
        ensures
            r@ == strip(self@),
    ;
}

impl RemovePunctuation for String {
    fn remove_punctuation(&self) -> (r: String) {
        strip_str(self.as_str())
    }
}

/// `s` without its ASCII punctuation.
pub fn strip_str(s: &str) -> (r: String)
    ensures
        r@ == strip(s@),
{
    let mut r = String::new();
    for c in it: s.chars()
        invariant
            it.seq() == s@,
            r@ == strip(s@.take(it.index() as int)),
    {
        proof {
            assert(s@.take(it.index() + 1).drop_last() =~= s@.take(it.index() as int));
        }
        if !is_punct_char(c) {
            push_char(&mut r, c);
        }
    }
    proof {
        assert(s@.take(s@.len() as int) =~= s@);
    }
    r
}

/// The words of `s`: its maximal runs of non-whitespace characters, in order.
pub fn split_words(s: &str) -> (r: Vec<String>)
    ensures
        views(r@) == words(s@),
{
    let mut toks: Vec<String> = Vec::new();
    let mut cur = String::new();
    for c in it: s.chars()
        invariant
            it.seq() == s@,
            cur@.len() > 0 <==> (it.index() > 0 && !is_space(s@[it.index() - 1])),
            (if cur@.len() > 0 {
                views(toks@).push(cur@)
            } else {
                views(toks@)
            }) == words(s@.take(it.index() as int)),
    {
        let ghost i = it.index() as int;
        proof {
            assert(s@.take(i + 1).drop_last() =~= s@.take(i));
            assert(s@.take(i + 1).last() == c);
        }
        if is_space_char(c) {
            if !cur.as_str().is_empty() {
                let ghost before = toks@;
                let done = cur;
                cur = String::new();
                toks.push(done);
                assert(views(toks@) =~= views(before).push(done@));
            }
        } else {
            let ghost prev = cur@;
            push_char(&mut cur, c);
            proof {
                let t = s@.take(i + 1);
                assert(t.drop_last() =~= s@.take(i));
                if prev.len() > 0 {
                    assert(t[t.len() - 2] == s@[i - 1]);
                    assert(views(toks@).push(prev).drop_last() =~= views(toks@));
                } else {
                    assert(i > 0 ==> t[t.len() - 2] == s@[i - 1]);
                    assert(cur@ =~= seq![c]);
                }
                assert(words(t) =~= views(toks@).push(cur@));
            }
        }
    }
    if !cur.as_str().is_empty() {
        let ghost before = toks@;
        let ghost last = cur@;
        toks.push(cur);
        assert(views(toks@) =~= views(before).push(last));
    }
    proof {
        assert(s@.take(s@.len() as int) =~= s@);
    }
    toks
}

/// The pieces of `s` between its newline characters: one more than it has
/// newlines.
pub open spec fn pieces(s: Seq<char>) -> Seq<Seq<char>>
    decreases s.len(),
{
    if s.len() == 0 {
        seq![Seq::empty()]
    } else {
        let prev = pieces(s.drop_last());
        if s.last() == '\n' {
            prev.push(Seq::empty())
        } else {
            prev.drop_last().push(prev.last().push(s.last()))
        }
    }
}

/// The lines of `s`: its pieces between newlines, without the empty piece
/// that follows a final newline (or makes up an empty text).
pub open spec fn lines_of(s: Seq<char>) -> Seq<Seq<char>> {
    let ps = pieces(s);
    if ps.last().len() == 0 {
        ps.drop_last()
    } else {
        ps
    }
}

/// Cuts a text into its lines, at each newline character.
pub fn split_lines(s: &str) -> (r: Vec<String>)
    ensures
        views(r@) == lines_of(s@),
{
    let mut done: Vec<String> = Vec::new();
    let mut cur = String::new();
    proof {
        assert(s@.take(0) =~= Seq::<char>::empty());
        assert(views(done@).push(cur@) =~= seq![Seq::<char>::empty()]);
    }
    for c in it: s.chars()
        invariant
            it.seq() == s@,
            views(done@).push(cur@) == pieces(s@.take(it.index() as int)),
    {
        let ghost i = it.index() as int;
        let ghost before = done@;
        let ghost prev = cur@;
        proof {
            assert(s@.take(i + 1).drop_last() =~= s@.take(i));
            assert(s@.take(i + 1).last() == c);
        }
        if c == '\n' {
            let line = cur;
            cur = String::new();
            done.push(line);
            proof {
                assert(views(done@) =~= views(before).push(prev));
                assert(views(done@).push(cur@) =~= views(before).push(prev).push(Seq::empty()));
            }
        } else {
            push_char(&mut cur, c);
            proof {
                assert(views(before).push(prev).drop_last() =~= views(before));
                assert(views(done@).push(cur@) =~= views(before).push(prev).drop_last().push(
                    prev.push(c),
                ));
            }
        }
    }
    proof {
        assert(s@.take(s@.len() as int) =~= s@);
    }
    if !cur.as_str().is_empty() {
        let ghost before = done@;
        let ghost last = cur@;
        done.push(cur);
        assert(views(done@) =~= views(before).push(last));
    } else {
        assert(views(done@) =~= views(done@).push(cur@).drop_last());
    }
    done
}

} // verus!
