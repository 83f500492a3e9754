//! Lexical filtering: source text in, instruction symbols out.

use std::str::Chars;
use vstd::prelude::*;
use vstd::std_specs::iter::IteratorSpec;
use vstd::utf8::{encode_scalar, encode_utf8};

verus! {

/// Whether `c` is one of the eight instruction symbols `+ - [ ] > < , .`.
pub open spec fn is_symbol(c: char) -> bool {
    c == '+' || c == '-' || c == '[' || c == ']' || c == '>' || c == '<' || c == ',' || c == '.'
}

/// The instruction symbols of `text`, in the order in which they stand
/// there, with every other character removed.
pub open spec fn symbols(text: Seq<char>) -> Seq<char> {
    text.filter(|c: char| is_symbol(c))
}

/// Executable form of [`is_symbol`].
pub fn is_allowed(c: char) -> (allowed: bool)
    ensures
        allowed == is_symbol(c),
{
    c == '+' || c == '-' || c == '[' || c == ']' || c == '>' || c == '<' || c == ',' || c == '.'
}

/// What `symbols` keeps of a text: of a single character, the character
/// itself if it is a symbol and nothing otherwise; of two texts in a row,
/// what it keeps of the first followed by what it keeps of the second. So
/// it removes exactly the characters that are no symbols, and moves none.
pub proof fn lemma_symbols_piecewise(first: Seq<char>, second: Seq<char>, c: char)
    ensures
        symbols(first + second) == symbols(first) + symbols(second),
        symbols(seq![c]) == (if is_symbol(c) {
            seq![c]
        } else {
            Seq::empty()
        }),
        symbols(Seq::empty()) == Seq::<char>::empty(),
{
    let pred = |c: char| is_symbol(c);
    Seq::filter_distributes_over_add(first, second, pred);
    assert(seq![c].filter(pred) =~= (if is_symbol(c) {
        seq![c]
    } else {
        Seq::empty()
    })) by {
        reveal_with_fuel(Seq::filter, 2);
        assert(seq![c].drop_last() =~= Seq::<char>::empty());
    }
    assert(Seq::<char>::empty().filter(pred) =~= Seq::<char>::empty()) by {
        reveal_with_fuel(Seq::filter, 1);
    }
}

/// Every character that `symbols` keeps is an instruction symbol.
pub proof fn lemma_symbols_are_symbols(text: Seq<char>, i: int)
    requires
        0 <= i < symbols(text).len(),
    ensures
        is_symbol(symbols(text)[i]),
{
    text.lemma_filter_pred(|c: char| is_symbol(c), i);
}

/// A text of `n` characters takes at least `n` bytes in UTF-8.
proof fn lemma_encoding_is_no_shorter(text: Seq<char>)
    ensures
        text.len() <= encode_utf8(text).len(),
    decreases text.len(),
{
    if text.len() > 0 {
        assert(encode_scalar(text[0] as u32).len() >= 1);
        lemma_encoding_is_no_shorter(text.drop_first());
    }
}

/// Text that starts with characters that are no symbols, followed by the
/// symbol `c`, has `c` as its first symbol, and the symbols of what follows
/// `c` as the rest.
pub proof fn lemma_symbols_after_noise(text: Seq<char>, k: int)
    requires
        0 <= k < text.len(),
        is_symbol(text[k]),
        forall|j: int| 0 <= j < k ==> !is_symbol(#[trigger] text[j]),
    ensures
        symbols(text) == seq![text[k]] + symbols(text.skip(k + 1)),
        symbols(text).len() > 0,
        symbols(text)[0] == text[k],
        symbols(text).drop_first() == symbols(text.skip(k + 1)),
{
    let noise = text.take(k);
    let rest = text.skip(k + 1);
    assert(text =~= noise + (seq![text[k]] + rest));
    lemma_symbols_of_noise(noise);
    lemma_symbols_piecewise(noise, seq![text[k]] + rest, text[k]);
    lemma_symbols_piecewise(seq![text[k]], rest, text[k]);
    assert(symbols(text) =~= seq![text[k]] + symbols(rest));
    assert(symbols(text).drop_first() =~= symbols(rest));
}

/// Text without any symbol has no symbols.
pub proof fn lemma_symbols_of_noise(text: Seq<char>)
    requires
        forall|j: int| 0 <= j < text.len() ==> !is_symbol(#[trigger] text[j]),
    ensures
        symbols(text) == Seq::<char>::empty(),
    decreases text.len(),
{
    reveal(Seq::filter);
    if text.len() > 0 {
        lemma_symbols_of_noise(text.drop_last());
    }
    assert(symbols(text) =~= Seq::<char>::empty());
}

/// A one-pass scanner over source text that yields its instruction symbols.
///
/// A lexer cannot be rewound: to scan a text again, make a new one.
pub struct Lexer<'a> {
    /// The characters that have not been scanned yet.
    pub chars: Chars<'a>,
}

impl<'a> Lexer<'a> {
    /// Whether the underlying iterator is known to run out.
    pub open spec fn well_formed(&self) -> bool {
        self.chars.decrease() is Some
    }

    /// A number that gets smaller with every character scanned.
    pub open spec fn measure(&self) -> nat {
        self.chars.decrease()->0
    }

    /// A lexer at the start of `contents`.
    pub fn new(contents: &'a str) -> (lexer: Lexer<'a>)
        ensures
            lexer.well_formed(),
            lexer.chars.remaining() == contents@,
            lexer.chars.remaining().len() <= usize::MAX,
    {
        broadcast use vstd::string::axiom_spec_iter;

        let bytes = contents.as_bytes();
        proof {
            vstd::slice::axiom_spec_len(bytes);
            lemma_encoding_is_no_shorter(contents@);
        }
        Lexer { chars: contents.chars() }
    }

    /// Scans forward to the next instruction symbol and returns it, or
    /// returns `None` when the rest of the text holds none.
    ///
    /// Everything up to and including the returned symbol is consumed; at
    /// `None` the whole text is.
    pub fn next_char(&mut self) -> (symbol: Option<char>)
        requires
            old(self).well_formed(),
        ensures
            final(self).well_formed(),
            symbol is Some ==> final(self).measure() < old(self).measure(),
            match symbol {
                Some(c) => exists|k: int|
                    {
                        &&& 0 <= k < old(self).chars.remaining().len()
                        &&& #[trigger] old(self).chars.remaining()[k] == c
                        &&& is_symbol(c)
                        &&& forall|j: int|
                            0 <= j < k ==> !is_symbol(#[trigger] old(self).chars.remaining()[j])
                        &&& final(self).chars.remaining() == old(self).chars.remaining().skip(
                            k + 1,
                        )
                    },
                None => {
                    &&& forall|j: int|
                        0 <= j < old(self).chars.remaining().len() ==> !is_symbol(
                            #[trigger] old(self).chars.remaining()[j],
                        )
                    &&& final(self).chars.remaining() == Seq::<char>::empty()
                },
            },
            symbol == (if symbols(old(self).chars.remaining()).len() > 0 {
                Some(symbols(old(self).chars.remaining())[0])
            } else {
                None
            }),
            symbol is Some ==> symbols(final(self).chars.remaining()) == symbols(
                old(self).chars.remaining(),
            ).drop_first(),
    {
        broadcast use vstd::string::next_postcondition;

        let ghost start = self.chars.remaining();
        let ghost mut skipped: int = 0;
        loop
            invariant
                self.well_formed(),
                self.measure() <= old(self).measure(),
                0 <= skipped <= start.len(),
                start == old(self).chars.remaining(),
                self.chars.remaining() == start.skip(skipped),
                forall|j: int| 0 <= j < skipped ==> !is_symbol(#[trigger] start[j]),
            decreases self.measure(),
        {
            match self.chars.next() {
                Some(c) => {
                    assert(c == start[skipped]);
                    assert(self.chars.remaining() =~= start.skip(skipped + 1));
                    if is_allowed(c) {
                        proof {
                            lemma_symbols_after_noise(start, skipped);
                        }
                        return Some(c);
                    }
                    proof {
                        skipped = skipped + 1;
                    }
                },
                None => {
                    assert(self.chars.remaining() =~= Seq::<char>::empty());
                    proof {
                        lemma_symbols_of_noise(start);
                    }
                    return None;
                },
            }
        }
    }
}

} // verus!
