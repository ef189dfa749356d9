//! Named subpatterns: `(?&name)` in a regex stands for the subpattern's
//! regex.

use vstd::prelude::*;

use crate::error::Error;
use crate::graph::mir::{lower, Mir};
use crate::syntax::{parse_regex, regex_syntax_parse, SyntaxView};
use crate::text::{push_char, push_str};

verus! {

/// `s` with every occurrence of `from` replaced by `to`, leftmost first
/// and without overlaps.
pub open spec fn replace_all(s: Seq<char>, from: Seq<char>, to: Seq<char>) -> Seq<char>
    decreases s.len(),
{
    if from.len() == 0 || s.len() < from.len() {
        s
    } else if s.take(from.len() as int) == from {
        to + replace_all(s.skip(from.len() as int), from, to)
    } else {
        seq![s[0]] + replace_all(s.skip(1), from, to)
    }
}

/// Replacing leaves alone a prefix `x` in which no occurrence of `from`
/// starts: `x + y` becomes `x` followed by `y` with its occurrences
/// replaced.
pub proof fn law_replace_clean_prefix(x: Seq<char>, y: Seq<char>, from: Seq<char>, to: Seq<char>)
    requires
        from.len() > 0,
        forall|i: int| 0 <= i < x.len() && i + from.len() <= x.len() + y.len() ==> #[trigger] (x + y).subrange(i, i + from.len()) != from,
    ensures
        replace_all(x + y, from, to) == x + replace_all(y, from, to),
    decreases x.len(),
{
    let s = x + y;
    let m = from.len() as int;
    if x.len() == 0 {
        assert(s =~= y);
        assert(x + replace_all(y, from, to) =~= replace_all(y, from, to));
    } else if s.len() < m {
        assert(y.len() < m);
        assert(x + y =~= s);
    } else {
        assert(0 + from.len() <= x.len() + y.len());
        assert((x + y).subrange(0, 0 + from.len() as int) != from);
        assert(s.take(m) =~= (x + y).subrange(0, 0 + from.len() as int));
        let x1 = x.skip(1);
        assert(s.skip(1) =~= x1 + y);
        assert forall|i: int| 0 <= i < x1.len() && i + m <= x1.len() + y.len() implies #[trigger] (x1 + y).subrange(i, i + m) != from by {
            assert((x1 + y).subrange(i, i + m) =~= s.subrange(i + 1, i + 1 + m));
        }
        law_replace_clean_prefix(x1, y, from, to);
        assert(seq![s[0]] + (x1 + replace_all(y, from, to)) =~= x + replace_all(y, from, to));
    }
}

/// An occurrence of `from`, with none starting before it, is replaced by
/// `to`: `x + from + y` becomes `x + to` followed by `y` with its
/// occurrences replaced. In particular an occurrence that ends the text
/// is replaced.
pub proof fn law_replace_occurrence(x: Seq<char>, y: Seq<char>, from: Seq<char>, to: Seq<char>)
    requires
        from.len() > 0,
        forall|i: int|
            0 <= i < x.len() && i + from.len() <= x.len() + from.len() + y.len() ==> #[trigger] (x + (from + y)).subrange(i, i + from.len()) != from,
    ensures
        replace_all(x + from + y, from, to) == x + to + replace_all(y, from, to),
{
    law_replace_clean_prefix(x, from + y, from, to);
    assert(x + from + y =~= x + (from + y));
    assert((from + y).take(from.len() as int) =~= from);
    assert((from + y).skip(from.len() as int) =~= y);
    assert(x + (to + replace_all(y, from, to)) =~= x + to + replace_all(y, from, to));
}

/// Text in which `from` does not occur is left as it is.
pub proof fn law_replace_absent(s: Seq<char>, from: Seq<char>, to: Seq<char>)
    requires
        from.len() > 0,
        forall|i: int| 0 <= i && i + from.len() <= s.len() ==> #[trigger] s.subrange(i, i + from.len()) != from,
    ensures
        replace_all(s, from, to) == s,
{
    assert forall|i: int| 0 <= i < s.len() && i + from.len() <= s.len() + Seq::<char>::empty().len() implies #[trigger] (s + Seq::<char>::empty()).subrange(
        i,
        i + from.len(),
    ) != from by {
        assert(s + Seq::<char>::empty() =~= s);
    }
    law_replace_clean_prefix(s, Seq::<char>::empty(), from, to);
    assert(s + Seq::<char>::empty() =~= s);
    assert(replace_all(Seq::<char>::empty(), from, to) =~= Seq::<char>::empty());
}

/// A named subpattern: what invokes it in a regex, and what replaces the
/// invocation.
#[derive(Clone, Debug)]
pub struct Subpattern {
    invoke: String,
    produce: String,
}

impl Subpattern {
    /// The invocation, `(?&name)`.
    pub closed spec fn invoke_view(&self) -> Seq<char> {
        self.invoke@
    }

    /// The replacement, `(?:regex)`.
    pub closed spec fn produce_view(&self) -> Seq<char> {
        self.produce@
    }

    /// The subpattern `name` standing for `lit`.
    fn new(name: &str, lit: &str) -> (r: Subpattern)
        ensures
            r.invoke_view() == seq!['(', '?', '&'] + name@ + seq![')'],
            r.produce_view() == seq!['(', '?', ':'] + lit@ + seq![')'],
    {
        let mut invoke = String::new();
        push_char(&mut invoke, '(');
        push_char(&mut invoke, '?');
        push_char(&mut invoke, '&');
        push_str(&mut invoke, name);
        push_char(&mut invoke, ')');
        let mut produce = String::new();
        push_char(&mut produce, '(');
        push_char(&mut produce, '?');
        push_char(&mut produce, ':');
        push_str(&mut produce, lit);
        push_char(&mut produce, ')');
        proof {
            assert(invoke@ =~= seq!['(', '?', '&'] + name@ + seq![')']);
            assert(produce@ =~= seq!['(', '?', ':'] + lit@ + seq![')']);
        }
        Subpattern { invoke, produce }
    }

    /// Check that `lit` is a regex the graph can express, as `validate`
    /// does for `utf8`.
    fn validate(utf8: bool, lit: &str) -> (r: Result<(), Error>)
        ensures
            match regex_syntax_parse(utf8, lit@) {
                Err(msg) => r matches Err(Error::Syntax(m)) && m@ == msg,
                Ok(tree) => match lower(tree) {
                    Err(u) => r == Err::<(), Error>(Error::Unsupported(u)),
                    Ok(_) => r is Ok,
                },
            },
    {
        match parse_regex(utf8, lit) {
            Ok(syntax) => match Mir::try_from(syntax) {
                Ok(_) => Ok(()),
                Err(u) => Err(Error::Unsupported(u)),
            },
            Err(msg) => Err(Error::Syntax(msg)),
        }
    }

    /// The subpattern `name` standing for the UTF-8 regex `lit`, which
    /// must parse and be one the graph can express.
    pub fn utf8(name: &str, lit: &str) -> (r: Result<Subpattern, Error>)
        ensures
            match regex_syntax_parse(true, lit@) {
                Err(msg) => r matches Err(Error::Syntax(m)) && m@ == msg,
                Ok(tree) => match lower(tree) {
                    Err(u) => r == Err::<Subpattern, Error>(Error::Unsupported(u)),
                    Ok(_) => r matches Ok(s) && s.invoke_view() == seq!['(', '?', '&'] + name@ + seq![')']
                        && s.produce_view() == seq!['(', '?', ':'] + lit@ + seq![')'],
                },
            },
    {
        match Subpattern::validate(true, lit) {
            Ok(()) => Ok(Subpattern::new(name, lit)),
            Err(e) => Err(e),
        }
    }

    /// The subpattern `name` standing for the byte regex `lit`, which
    /// must parse and be one the graph can express.
    pub fn binary(name: &str, lit: &str) -> (r: Result<Subpattern, Error>)
        ensures
            match regex_syntax_parse(false, lit@) {
                Err(msg) => r matches Err(Error::Syntax(m)) && m@ == msg,
                Ok(tree) => match lower(tree) {
                    Err(u) => r == Err::<Subpattern, Error>(Error::Unsupported(u)),
                    Ok(_) => r matches Ok(s) && s.invoke_view() == seq!['(', '?', '&'] + name@ + seq![')']
                        && s.produce_view() == seq!['(', '?', ':'] + lit@ + seq![')'],
                },
            },
    {
        match Subpattern::validate(false, lit) {
            Ok(()) => Ok(Subpattern::new(name, lit)),
            Err(e) => Err(e),
        }
    }

    /// `pattern` with every invocation of the subpattern replaced by its
    /// regex.
    pub fn fix(&self, pattern: String) -> (r: String)
        requires
            self.invoke_view().len() > 0,
        ensures
            r@ == replace_all(pattern@, self.invoke_view(), self.produce_view()),
    {
        let s = pattern.as_str();
        let from = self.invoke.as_str();
        let n = s.unicode_len();
        let m = from.unicode_len();
        let mut out = String::new();
        let mut i: usize = 0;
        proof {
            assert(s@.skip(0) =~= s@);
            assert(out@ + replace_all(s@.skip(0), from@, self.produce@) =~= replace_all(s@, from@, self.produce@));
        }
        while i < n
            invariant
                n == s@.len(),
                m == from@.len(),
                m > 0,
                s@ == pattern@,
                from@ == self.invoke_view(),
                self.produce@ == self.produce_view(),
                i <= n,
                replace_all(s@, from@, self.produce@) == out@ + replace_all(s@.skip(i as int), from@, self.produce@),
            decreases n - i,
        {
            let ghost rest = s@.skip(i as int);
            let found = matches_at(s, i, from);
            if found {
                proof {
                    assert(rest.take(m as int) =~= from@);
                    assert(rest.skip(m as int) =~= s@.skip(i + m));
                }
                push_str(&mut out, self.produce.as_str());
                i = i + m;
            } else {
                let c = s.get_char(i);
                proof {
                    assert(rest.len() < m ==> replace_all(rest, from@, self.produce@) == rest);
                    assert(rest.skip(1) =~= s@.skip(i + 1));
                    assert(rest =~= seq![c] + s@.skip(i + 1));
                    if rest.len() < m {
                        assert(s@.skip(i + 1).len() < m);
                        assert(replace_all(s@.skip(i + 1), from@, self.produce@) == s@.skip(i + 1));
                    } else {
                        assert(rest.take(m as int) != from@);
                    }
                }
                push_char(&mut out, c);
                proof {
                    assert(out@ + replace_all(s@.skip(i + 1), from@, self.produce@) =~= replace_all(s@, from@, self.produce@));
                }
                i = i + 1;
            }
        }
        proof {
            assert(s@.skip(n as int) =~= Seq::<char>::empty());
            assert(out@ + Seq::<char>::empty() =~= out@);
        }
        out
    }
}

/// Whether `pat` occurs in `s` at the character position `i`.
fn matches_at(s: &str, i: usize, pat: &str) -> (r: bool)
    requires
        i <= s@.len(),
    ensures
        r == (i + pat@.len() <= s@.len() && s@.skip(i as int).take(pat@.len() as int) == pat@),
{
    let n = s.unicode_len();
    let m = pat.unicode_len();
    if n - i < m {
        return false;
    }
    let mut j: usize = 0;
    while j < m
        invariant
            n == s@.len(),
            m == pat@.len(),
            i + m <= n,
            j <= m,
            forall|k: int| 0 <= k < j ==> s@[i + k] == pat@[k],
        decreases m - j,
    {
        if s.get_char(i + j) != pat.get_char(j) {
            proof {
                assert(s@.skip(i as int).take(m as int)[j as int] != pat@[j as int]);
            }
            return false;
        }
        j = j + 1;
    }
    proof {
        assert(s@.skip(i as int).take(m as int) =~= pat@);
    }
    true
}

} // verus!
