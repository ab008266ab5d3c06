//! The command surface: the actions the tool offers, their argument
//! records, and the parsing of a partition filter list.

use vstd::prelude::*;

verus! {

/// Arguments of an extraction run.
#[derive(PartialEq, Eq, Debug)]
pub struct ExtractArgs {
    /// The payload file.
    pub file: String,
    /// The folder holding the images before the update, for
    /// incremental payloads.
    pub src: Option<String>,
    /// The folder that will hold the images after the update.
    pub dst: String,
    /// The partitions to extract; absent means all.
    pub parts: Option<Option<String>>,
    /// Disables hash checking for source images and payload data.
    pub skip_hash: bool,
}

/// Arguments of an inspection run.
#[derive(PartialEq, Eq, Debug)]
pub struct InspectArgs {
    /// The payload file.
    pub file: String,
    /// The partitions to list operations for; empty means all.
    pub dump_ops: Option<Option<String>>,
}

/// What the tool is asked to do.
#[derive(PartialEq, Eq, Debug)]
pub enum Action {
    Extract(ExtractArgs),
    Inspect(InspectArgs),
}

impl Action {
    /// The payload file the action works on.
    pub fn get_file(&self) -> (r: &str)
        ensures
            r@ == (match self {
                Action::Extract(inner) => inner.file@,
                Action::Inspect(inner) => inner.file@,
            }),
    {
        match self {
            Action::Extract(inner) => inner.file.as_str(),
            Action::Inspect(inner) => inner.file.as_str(),
        }
    }
}

/// The whitespace classification of the standard library
/// (`char::is_whitespace`), which `str::trim` removes from both ends:
/// a property of the character alone, named but not restated.
pub uninterp spec fn is_space(c: char) -> bool;

/// The characters with leading whitespace removed.
pub open spec fn trim_front(s: Seq<char>) -> Seq<char>
    decreases s.len(),
{
    if s.len() > 0 && is_space(s[0]) {
        trim_front(s.drop_first())
    } else {
        s
    }
}

/// The characters with trailing whitespace removed.
pub open spec fn trim_back(s: Seq<char>) -> Seq<char>
    decreases s.len(),
{
    if s.len() > 0 && is_space(s.last()) {
        trim_back(s.drop_last())
    } else {
        s
    }
}

/// The characters with whitespace removed from both ends.
pub open spec fn trimmed(s: Seq<char>) -> Seq<char> {
    trim_back(trim_front(s))
}

/// Relies on str::trim: the characters with leading and trailing
/// whitespace removed, whitespace as `is_space` names it; what remains
/// neither starts nor ends with whitespace.
#[verifier::external_body]
fn trim_string(s: &str) -> (r: String)
    ensures
        r@ == trimmed(s@),
        r@.len() > 0 ==> !is_space(r@[0]) && !is_space(r@.last()),
{
    s.trim().to_string()
}

/// The index of the first comma, or a negative value when there is
/// none.
pub open spec fn first_comma(s: Seq<u8>) -> int
    decreases s.len(),
{
    if s.len() == 0 {
        -1
    } else if s[0] == 0x2cu8 {
        0
    } else {
        let r = first_comma(s.drop_first());
        if r < 0 {
            -1
        } else {
            r + 1
        }
    }
}

/// The first comma lies within the bytes, when there is one.
pub proof fn lemma_first_comma_bounds(s: Seq<u8>)
    ensures
        -1 <= first_comma(s) < s.len(),
    decreases s.len(),
{
    if s.len() > 0 && s[0] != 0x2cu8 {
        lemma_first_comma_bounds(s.drop_first());
    }
}

/// A comma with none before it is the first comma.
pub proof fn lemma_first_comma_at(s: Seq<u8>, j: int)
    requires
        0 <= j < s.len(),
        s[j] == 0x2cu8,
        forall|k: int| 0 <= k < j ==> s[k] != 0x2cu8,
    ensures
        first_comma(s) == j,
    decreases j,
{
    if j > 0 {
        lemma_first_comma_at(s.drop_first(), j - 1);
    }
}

/// Without a comma anywhere there is no first comma.
pub proof fn lemma_first_comma_none(s: Seq<u8>)
    requires
        forall|k: int| 0 <= k < s.len() ==> s[k] != 0x2cu8,
    ensures
        first_comma(s) == -1,
    decreases s.len(),
{
    if s.len() > 0 {
        lemma_first_comma_none(s.drop_first());
    }
}

#[via_fn]
proof fn split_commas_decreases_proof(s: Seq<u8>) {
    lemma_first_comma_bounds(s);
}

/// The byte runs between commas, in order; a trailing comma yields a
/// final empty run.
pub open spec fn split_commas(s: Seq<u8>) -> Seq<Seq<u8>>
    decreases s.len(),
    via split_commas_decreases_proof
{
    let i = first_comma(s);
    if i < 0 {
        seq![s]
    } else {
        seq![s.take(i)] + split_commas(s.skip(i + 1))
    }
}

/// A byte sequence split from a valid UTF-8 sequence at an ASCII byte
/// stays valid: the split point is a character boundary.
proof fn lemma_split_at_comma_valid(t: Seq<u8>, j: int)
    requires
        vstd::utf8::valid_utf8(t),
        0 <= j <= t.len(),
        j < t.len() ==> t[j] == 0x2cu8,
    ensures
        vstd::utf8::is_char_boundary(t, j),
        vstd::utf8::valid_utf8(t.subrange(0, j)),
        vstd::utf8::valid_utf8(t.subrange(j, t.len() as int)),
{
    if j == t.len() {
        vstd::utf8::is_char_boundary_start_end_of_seq(t);
    } else {
        assert(!vstd::utf8::is_continuation_byte(t[j]));
        vstd::utf8::is_char_boundary_iff_not_is_continuation_byte(t, j);
    }
    vstd::utf8::valid_utf8_split(t, j);
}

/// Dropping a leading comma from a valid UTF-8 sequence keeps it
/// valid: the comma is a whole one-byte character.
proof fn lemma_drop_comma_valid(t: Seq<u8>)
    requires
        vstd::utf8::valid_utf8(t),
        t.len() > 0,
        t[0] == 0x2cu8,
    ensures
        vstd::utf8::valid_utf8(t.subrange(1, t.len() as int)),
{
    assert(vstd::utf8::length_of_first_scalar(t) == 1);
    if t.len() == 1 {
        vstd::utf8::is_char_boundary_start_end_of_seq(t);
    } else {
        assert(vstd::utf8::is_char_boundary(vstd::utf8::pop_first_scalar(t), 0));
        assert(vstd::utf8::is_char_boundary(t, 1));
    }
    vstd::utf8::valid_utf8_split(t, 1);
}

/// The type a failed UTF-8 conversion reports.
#[verifier::external_type_specification]
#[verifier::external_body]
pub struct ExFromUtf8Error(std::string::FromUtf8Error);

/// Relies on String::from_utf8: it succeeds exactly on valid UTF-8 and
/// then holds the decoded characters.
pub assume_specification[ String::from_utf8 ](v: Vec<u8>) -> (r: Result<
    String,
    std::string::FromUtf8Error,
>)
    ensures
        r is Ok <==> vstd::utf8::valid_utf8(v@),
        r is Ok ==> r->Ok_0@ == vstd::utf8::decode_utf8(v@),
;

/// Splits a comma-separated partition list into trimmed names.
///
/// An absent argument yields no filter; a present argument without a
/// value yields an empty filter.  Each piece between commas is kept
/// with its surrounding whitespace removed.
#[verifier::rlimit(50)]
pub fn parse_parts(parts: &Option<Option<String>>) -> (r: Option<Vec<String>>)
    ensures
        match parts {
            None => r is None,
            Some(inner) => {
                &&& r is Some
                &&& match inner {
                    None => r->0@.len() == 0,
                    Some(s) => {
                        let pieces = split_commas(vstd::utf8::encode_utf8(s@));
                        &&& r->0@.len() == pieces.len()
                        &&& forall|k: int|
                            0 <= k < pieces.len() ==> r->0@[k]@ == trimmed(
                                vstd::utf8::decode_utf8(#[trigger] pieces[k]),
                            )
                    },
                }
            },
        },
{
    let s: &String = match parts {
        None => {
            return None;
        },
        Some(inner) => match inner {
            None => {
                return Some(Vec::new());
            },
            Some(s) => s,
        },
    };
    let b = s.as_str().as_bytes();
    let n = b.len();
    let ghost pieces = split_commas(b@);
    let mut out: Vec<String> = Vec::new();
    let ghost mut done_pieces: Seq<Seq<u8>> = Seq::empty();
    let mut start: usize = 0;
    let mut done = false;
    proof {
        vstd::utf8::encode_utf8_valid_utf8(s@);
        assert(b@.skip(0) =~= b@);
        assert(b@.subrange(0, n as int) =~= b@);
        assert(done_pieces + split_commas(b@.skip(0)) =~= pieces);
    }
    while !done
        invariant
            n == b@.len(),
            start <= n,
            vstd::utf8::valid_utf8(b@.subrange(start as int, n as int)),
            out@.len() == done_pieces.len(),
            !done ==> pieces =~= done_pieces + split_commas(b@.skip(start as int)),
            done ==> pieces =~= done_pieces,
            forall|k: int|
                0 <= k < done_pieces.len() ==> out@[k]@ == trimmed(
                    vstd::utf8::decode_utf8(#[trigger] done_pieces[k]),
                ),
        decreases (if done {
            0int
        } else {
            n - start + 1
        }),
    {
        // Scan to the next comma.
        let mut j = start;
        while j < n && b[j] != 0x2c
            invariant
                start <= j <= n,
                n == b@.len(),
                forall|k: int| start <= k < j ==> b@[k] != 0x2cu8,
            decreases n - j,
        {
            j += 1;
        }
        let ghost piece = b@.subrange(start as int, j as int);
        let ghost tail = b@.subrange(start as int, n as int);
        let ghost rest = b@.skip(start as int);
        proof {
            assert(rest =~= tail);
            if j < n {
                lemma_first_comma_at(rest, j - start);
                assert(rest.take(j - start) =~= piece);
                assert(rest.skip(j - start + 1) =~= b@.skip(j + 1));
            } else {
                lemma_first_comma_none(rest);
                assert(rest =~= piece);
            }
            // The piece is itself valid UTF-8: it ends at a comma,
            // which is a whole one-byte character, or at the end.
            lemma_split_at_comma_valid(tail, j - start);
            assert(tail.subrange(0, j - start) =~= piece);
        }
        // Copy the piece and decode it.
        let mut pv: Vec<u8> = Vec::new();
        let mut k = start;
        while k < j
            invariant
                start <= k <= j <= n,
                n == b@.len(),
                pv@ == b@.subrange(start as int, k as int),
            decreases j - k,
        {
            pv.push(b[k]);
            proof {
                assert(pv@ =~= b@.subrange(start as int, k + 1));
            }
            k += 1;
        }
        let decoded = match String::from_utf8(pv) {
            Ok(d) => d,
            Err(_) => {
                proof {
                    assert(false);
                }
                String::new()
            },
        };
        let name = trim_string(decoded.as_str());
        out.push(name);
        proof {
            done_pieces = done_pieces + seq![piece];
        }
        if j < n {
            proof {
                let tail2 = tail.subrange(j - start, tail.len() as int);
                assert(tail2[0] == 0x2cu8);
                lemma_drop_comma_valid(tail2);
                assert(tail2.subrange(1, tail2.len() as int) =~= b@.subrange(j + 1, n as int));
            }
            start = j + 1;
        } else {
            done = true;
        }
    }
    Some(out)
}

} // verus!
