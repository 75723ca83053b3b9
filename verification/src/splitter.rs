//! Tokenizing one line of comma-separated, optionally double-quoted text
//! into its raw fields.
//!
//! A field may be wrapped in double quotes; inside such a field a comma is
//! literal and a doubled quote stands for a literal quote (the pair is kept
//! verbatim in the emitted field, it is not collapsed). The quoting must span
//! the whole field: the opening quote is the first byte of the field, and
//! after the closing quote only a comma or the end of the line may follow.
//! The line is handled as bytes; field boundaries are therefore counted in
//! the same unit the storage is indexed by, so multi-byte characters cannot
//! misalign them.

use vstd::prelude::*;

verus! {

/// The field delimiter, `,`.
pub const COMMA: u8 = 44;

/// The quoting byte, `"`.
pub const QUOTE: u8 = 34;

/// Why a line is not valid quoted text.
#[derive(Clone, Copy, Debug, PartialEq, Eq, Structural)]
pub enum SplitError {
    /// The line ended while a quoted field was still open.
    UnterminatedQuote,
    /// The byte right after a closing quote was neither a comma nor the end
    /// of the line.
    UnexpectedCharacterAfterQuote,
}

/// The views of a sequence of byte vectors, element by element.
pub open spec fn cells_of(v: Seq<Vec<u8>>) -> Seq<Seq<u8>> {
    v.map_values(|f: Vec<u8>| f@)
}

/// One step of the two-state tokenizer, resumed at position `i` of `line`
/// with `cur` the bytes of the current field so far, `acc` the fields already
/// emitted, and `quoted` whether a quoted field is open.
pub open spec fn split_from(
    line: Seq<u8>,
    i: int,
    cur: Seq<u8>,
    acc: Seq<Seq<u8>>,
    quoted: bool,
) -> Result<Seq<Seq<u8>>, SplitError>
    decreases line.len() - i,
{
    if i < 0 || i >= line.len() {
        if quoted {
            Err(SplitError::UnterminatedQuote)
        } else {
            Ok(acc.push(cur))
        }
    } else if quoted {
        if line[i] == QUOTE {
            if i + 1 >= line.len() {
                // closing quote at the end of the line
                Ok(acc.push(cur))
            } else if line[i + 1] == QUOTE {
                // escaped quote: both bytes stay in the field verbatim
                split_from(line, i + 2, cur + seq![QUOTE, QUOTE], acc, true)
            } else if line[i + 1] == COMMA {
                // closing quote followed by a delimiter
                split_from(line, i + 2, Seq::empty(), acc.push(cur), false)
            } else {
                Err(SplitError::UnexpectedCharacterAfterQuote)
            }
        } else {
            split_from(line, i + 1, cur.push(line[i]), acc, true)
        }
    } else {
        if line[i] == COMMA {
            split_from(line, i + 1, Seq::empty(), acc.push(cur), false)
        } else if line[i] == QUOTE && cur.len() == 0 {
            // a quote at the very start of a field opens it; the quote itself
            // is not part of the field
            split_from(line, i + 1, cur, acc, true)
        } else {
            split_from(line, i + 1, cur.push(line[i]), acc, false)
        }
    }
}

/// The fields of one line, or the reason it is rejected.
pub open spec fn split_spec(line: Seq<u8>) -> Result<Seq<Seq<u8>>, SplitError> {
    split_from(line, 0, Seq::empty(), Seq::empty(), false)
}

/// Tokenizes one line into its raw fields.
///
/// The final field is always emitted, so a trailing delimiter yields a final
/// empty field and the empty line yields one empty field; the number of
/// fields is the number of delimiters outside quotes plus one.
pub fn split_rows(line: &[u8]) -> (r: Result<Vec<Vec<u8>>, SplitError>)
    ensures
        match r {
            Ok(fields) => split_spec(line@) == Ok::<Seq<Seq<u8>>, SplitError>(cells_of(fields@)),
            Err(e) => split_spec(line@) == Err::<Seq<Seq<u8>>, SplitError>(e),
        },
{
    let mut acc: Vec<Vec<u8>> = Vec::new();
    let mut cur: Vec<u8> = Vec::new();
    let mut quoted: bool = false;
    let mut i: usize = 0;

    proof {
        assert(cells_of(acc@) =~= Seq::<Seq<u8>>::empty());
    }

    while i < line.len()
        invariant
            i <= line.len(),
            split_spec(line@) == split_from(line@, i as int, cur@, cells_of(acc@), quoted),
        decreases line.len() - i,
    {
        let b = line[i];
        if quoted {
            if b == QUOTE {
                if i + 1 >= line.len() {
                    let ghost pre = cells_of(acc@);
                    acc.push(cur);
                    proof {
                        assert(cells_of(acc@) =~= pre.push(cur@));
                    }
                    return Ok(acc);
                } else if line[i + 1] == QUOTE {
                    let ghost curv = cur@;
                    cur.push(QUOTE);
                    cur.push(QUOTE);
                    i = i + 2;
                    proof {
                        assert(cur@ =~= curv + seq![QUOTE, QUOTE]);
                    }
                } else if line[i + 1] == COMMA {
                    let ghost pre = cells_of(acc@);
                    let ghost curv = cur@;
                    acc.push(cur);
                    cur = Vec::new();
                    quoted = false;
                    i = i + 2;
                    proof {
                        assert(cells_of(acc@) =~= pre.push(curv));
                    }
                } else {
                    return Err(SplitError::UnexpectedCharacterAfterQuote);
                }
            } else {
                cur.push(b);
                i = i + 1;
            }
        } else {
            if b == COMMA {
                let ghost pre = cells_of(acc@);
                let ghost curv = cur@;
                acc.push(cur);
                cur = Vec::new();
                i = i + 1;
                proof {
                    assert(cells_of(acc@) =~= pre.push(curv));
                }
            } else if b == QUOTE && cur.len() == 0 {
                quoted = true;
                i = i + 1;
            } else {
                cur.push(b);
                i = i + 1;
            }
        }
    }

    if quoted {
        return Err(SplitError::UnterminatedQuote);
    }
    let ghost pre = cells_of(acc@);
    acc.push(cur);
    proof {
        assert(cells_of(acc@) =~= pre.push(cur@));
    }
    Ok(acc)
}

/// Inside a quoted field the tokenizer walks over a quote-free span without
/// leaving the quoted state, collecting the span into the current field.
proof fn lemma_quoted_run(line: Seq<u8>, i: int, j: int, cur: Seq<u8>, acc: Seq<Seq<u8>>)
    requires
        0 <= i <= j <= line.len(),
        forall|k: int| i <= k < j ==> line[k] != QUOTE,
    ensures
        split_from(line, i, cur, acc, true) == split_from(
            line,
            j,
            cur + line.subrange(i, j),
            acc,
            true,
        ),
    decreases j - i,
{
    if i < j {
        lemma_quoted_run(line, i + 1, j, cur.push(line[i]), acc);
        assert(cur.push(line[i]) + line.subrange(i + 1, j) =~= cur + line.subrange(i, j));
    } else {
        assert(cur + line.subrange(i, i) =~= cur);
    }
}

/// The fields joined back together with the delimiter between them.
pub open spec fn joined(fs: Seq<Seq<u8>>) -> Seq<u8>
    decreases fs.len(),
{
    if fs.len() == 0 {
        Seq::empty()
    } else if fs.len() == 1 {
        fs[0]
    } else {
        fs[0] + seq![COMMA] + joined(fs.skip(1))
    }
}

/// How many delimiter bytes a piece of text holds.
pub open spec fn comma_count(s: Seq<u8>) -> nat
    decreases s.len(),
{
    if s.len() == 0 {
        0
    } else if s[0] == COMMA {
        1 + comma_count(s.skip(1))
    } else {
        comma_count(s.skip(1))
    }
}

/// What the tokenizer had already emitted only stands in front of what it
/// goes on to emit: the accumulator splits off from the result, and has no
/// bearing on whether the line is rejected.
proof fn lemma_acc_prefix(line: Seq<u8>, i: int, cur: Seq<u8>, acc: Seq<Seq<u8>>, quoted: bool)
    ensures
        match (split_from(line, i, cur, acc, quoted), split_from(
            line,
            i,
            cur,
            Seq::empty(),
            quoted,
        )) {
            (Ok(fs), Ok(tail)) => fs == acc + tail,
            (Err(e), Err(e2)) => e == e2,
            _ => false,
        },
    decreases line.len() - i,
{
    let e: Seq<Seq<u8>> = Seq::empty();
    if i < 0 || i >= line.len() {
        if !quoted {
            assert(acc.push(cur) =~= acc + e.push(cur));
        }
    } else if quoted {
        if line[i] == QUOTE {
            if i + 1 >= line.len() {
                assert(acc.push(cur) =~= acc + e.push(cur));
            } else if line[i + 1] == QUOTE {
                lemma_acc_prefix(line, i + 2, cur + seq![QUOTE, QUOTE], acc, true);
            } else if line[i + 1] == COMMA {
                lemma_acc_prefix(line, i + 2, Seq::empty(), acc.push(cur), false);
                lemma_acc_prefix(line, i + 2, Seq::empty(), e.push(cur), false);
                match split_from(line, i + 2, Seq::empty(), e, false) {
                    Ok(t) => {
                        assert(acc.push(cur) + t =~= acc + (e.push(cur) + t));
                    },
                    Err(_) => {},
                }
            }
        } else {
            lemma_acc_prefix(line, i + 1, cur.push(line[i]), acc, true);
        }
    } else {
        if line[i] == COMMA {
            lemma_acc_prefix(line, i + 1, Seq::empty(), acc.push(cur), false);
            lemma_acc_prefix(line, i + 1, Seq::empty(), e.push(cur), false);
            match split_from(line, i + 1, Seq::empty(), e, false) {
                Ok(t) => {
                    assert(acc.push(cur) + t =~= acc + (e.push(cur) + t));
                },
                Err(_) => {},
            }
        } else if line[i] == QUOTE && cur.len() == 0 {
            lemma_acc_prefix(line, i + 1, cur, acc, true);
        } else {
            lemma_acc_prefix(line, i + 1, cur.push(line[i]), acc, false);
        }
    }
}

/// On a quote-free suffix the tokenizer always succeeds, emits one field per
/// delimiter plus one, and what it emits joins back to the current field
/// followed by that suffix.
proof fn lemma_unquoted_tail(line: Seq<u8>, i: int, cur: Seq<u8>)
    requires
        0 <= i <= line.len(),
        forall|k: int| i <= k < line.len() ==> line[k] != QUOTE,
    ensures
        split_from(line, i, cur, Seq::empty(), false) matches Ok(fs) && fs.len() == 1
            + comma_count(line.skip(i)) && joined(fs) == cur + line.skip(i),
    decreases line.len() - i,
{
    let e: Seq<Seq<u8>> = Seq::empty();
    if i >= line.len() {
        assert(line.skip(i) =~= Seq::<u8>::empty());
        assert(cur + line.skip(i) =~= cur);
    } else if line[i] == COMMA {
        lemma_unquoted_tail(line, i + 1, Seq::empty());
        lemma_acc_prefix(line, i + 1, Seq::empty(), e.push(cur), false);
        let t = split_from(line, i + 1, Seq::empty(), e, false)->Ok_0;
        let fs = split_from(line, i, cur, e, false)->Ok_0;
        assert(fs =~= seq![cur] + t);
        assert(line.skip(i)[0] == COMMA);
        assert(line.skip(i).skip(1) =~= line.skip(i + 1));
        assert(fs[0] == cur);
        assert(fs.skip(1) =~= t);
        assert(joined(t) == Seq::<u8>::empty() + line.skip(i + 1));
        assert(Seq::<u8>::empty() + line.skip(i + 1) =~= line.skip(i + 1));
        assert(cur + seq![COMMA] + line.skip(i + 1) =~= cur + line.skip(i));
    } else {
        lemma_unquoted_tail(line, i + 1, cur.push(line[i]));
        assert(line.skip(i)[0] != COMMA);
        assert(line.skip(i).skip(1) =~= line.skip(i + 1));
        assert(cur.push(line[i]) + line.skip(i + 1) =~= cur + line.skip(i));
    }
}

/// Splitting a line that holds no quote always succeeds, emits one field
/// per delimiter plus one, and joining the fields with the delimiter
/// restores the line: the fields are exactly the spans between the
/// delimiters, in order.
pub proof fn lemma_unquoted_round_trip(line: Seq<u8>)
    requires
        forall|k: int| 0 <= k < line.len() ==> line[k] != QUOTE,
    ensures
        split_spec(line) matches Ok(fs) && fs.len() == 1 + comma_count(line) && joined(fs)
            == line,
{
    lemma_unquoted_tail(line, 0, Seq::empty());
    assert(line.skip(0) =~= line);
    assert(Seq::<u8>::empty() + line =~= line);
}

/// Whenever the tokenizer succeeds it has emitted every field it had, and
/// one more for the field it was reading.
proof fn lemma_split_from_emits(line: Seq<u8>, i: int, cur: Seq<u8>, acc: Seq<Seq<u8>>, quoted: bool)
    ensures
        split_from(line, i, cur, acc, quoted) matches Ok(fs) ==> fs.len() > acc.len(),
    decreases line.len() - i,
{
    if i < 0 || i >= line.len() {
    } else if quoted {
        if line[i] == QUOTE {
            if i + 1 >= line.len() {
            } else if line[i + 1] == QUOTE {
                lemma_split_from_emits(line, i + 2, cur + seq![QUOTE, QUOTE], acc, true);
            } else if line[i + 1] == COMMA {
                lemma_split_from_emits(line, i + 2, Seq::empty(), acc.push(cur), false);
            }
        } else {
            lemma_split_from_emits(line, i + 1, cur.push(line[i]), acc, true);
        }
    } else {
        if line[i] == COMMA {
            lemma_split_from_emits(line, i + 1, Seq::empty(), acc.push(cur), false);
        } else if line[i] == QUOTE && cur.len() == 0 {
            lemma_split_from_emits(line, i + 1, cur, acc, true);
        } else {
            lemma_split_from_emits(line, i + 1, cur.push(line[i]), acc, false);
        }
    }
}

/// The final field is always emitted: a line that tokenizes at all yields at
/// least one field, the empty line included.
pub proof fn lemma_final_field_emitted(line: Seq<u8>)
    ensures
        split_spec(line) matches Ok(fs) ==> fs.len() >= 1,
{
    lemma_split_from_emits(line, 0, Seq::empty(), Seq::empty(), false);
}

/// An opening quote that is never closed is always rejected: from any field
/// start `p` whose byte is a quote with no further quote in the line, the
/// tokenizer fails with `UnterminatedQuote`, whatever it had already emitted
/// and whatever else the line holds.
pub proof fn lemma_unterminated_quote_rejected_at(line: Seq<u8>, p: int, acc: Seq<Seq<u8>>)
    requires
        0 <= p < line.len(),
        line[p] == QUOTE,
        forall|k: int| p < k < line.len() ==> line[k] != QUOTE,
    ensures
        split_from(line, p, Seq::empty(), acc, false) == Err::<Seq<Seq<u8>>, SplitError>(
            SplitError::UnterminatedQuote,
        ),
{
    lemma_quoted_run(line, p + 1, line.len() as int, Seq::empty(), acc);
}

/// The whole-line case of [`lemma_unterminated_quote_rejected_at`]: a line
/// whose first byte is a quote and which holds no further quote fails with
/// `UnterminatedQuote`.
pub proof fn lemma_unterminated_quote_rejected(line: Seq<u8>)
    requires
        line.len() > 0,
        line[0] == QUOTE,
        forall|k: int| 1 <= k < line.len() ==> line[k] != QUOTE,
    ensures
        split_spec(line) == Err::<Seq<Seq<u8>>, SplitError>(SplitError::UnterminatedQuote),
{
    lemma_unterminated_quote_rejected_at(line, 0, Seq::empty());
}

/// A byte that follows a closing quote and is neither a comma nor the end of
/// the line is always rejected: from any field start `p` that opens a quoted
/// field with quote-free content closing at `n`, the tokenizer fails with
/// `UnexpectedCharacterAfterQuote`, whatever it had already emitted and
/// whatever follows the offending byte.
pub proof fn lemma_stray_byte_after_quote_rejected_at(
    line: Seq<u8>,
    p: int,
    n: int,
    acc: Seq<Seq<u8>>,
)
    requires
        0 <= p < n,
        n + 1 < line.len(),
        line[p] == QUOTE,
        forall|k: int| p < k < n ==> line[k] != QUOTE,
        line[n] == QUOTE,
        line[n + 1] != COMMA,
        line[n + 1] != QUOTE,
    ensures
        split_from(line, p, Seq::empty(), acc, false) == Err::<Seq<Seq<u8>>, SplitError>(
            SplitError::UnexpectedCharacterAfterQuote,
        ),
{
    lemma_quoted_run(line, p + 1, n, Seq::empty(), acc);
}

/// The whole-line case of [`lemma_stray_byte_after_quote_rejected_at`], for
/// a leading quoted field.
pub proof fn lemma_stray_byte_after_quote_rejected(line: Seq<u8>, n: int)
    requires
        0 < n,
        n + 1 < line.len(),
        line[0] == QUOTE,
        forall|k: int| 0 < k < n ==> line[k] != QUOTE,
        line[n] == QUOTE,
        line[n + 1] != COMMA,
        line[n + 1] != QUOTE,
    ensures
        split_spec(line) == Err::<Seq<Seq<u8>>, SplitError>(
            SplitError::UnexpectedCharacterAfterQuote,
        ),
{
    lemma_stray_byte_after_quote_rejected_at(line, 0, n, Seq::empty());
}

} // verus!
