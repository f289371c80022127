//! What the process table says, once somebody has read it: which process is
//! the launcher, which processes are its children and which application a
//! child was started for.
//!
//! Everything here works on the bytes of a file that was read elsewhere.

use vstd::prelude::*;
use vstd::slice::slice_subrange;

verus! {

pub open spec fn is_digit(byte: u8) -> bool {
    48 <= byte <= 57
}

/// The bytes that separate words: space, tab, line feed, form feed and
/// carriage return.
pub open spec fn is_space(byte: u8) -> bool {
    byte == 32 || byte == 9 || byte == 10 || byte == 12 || byte == 13
}

pub open spec fn all_digits(text: Seq<u8>) -> bool {
    forall|i: int| 0 <= i < text.len() ==> is_digit(#[trigger] text[i])
}

/// The number that decimal digits stand for.
pub open spec fn decimal(digits: Seq<u8>) -> nat
    decreases digits.len(),
{
    if digits.len() == 0 {
        0
    } else {
        decimal(digits.drop_last()) * 10 + (digits.last() - 48) as nat
    }
}

/// The number that `text` spells: decimal digits, at least one, after an
/// optional plus sign, and no more than fits 32 bits.
pub open spec fn number(text: Seq<u8>) -> Option<u32> {
    let digits = if text.len() > 0 && text[0] == 43 {
        text.skip(1)
    } else {
        text
    };
    if digits.len() > 0 && all_digits(digits) && decimal(digits) <= u32::MAX {
        Some(decimal(digits) as u32)
    } else {
        None
    }
}

/// The digits read so far never stand for more than all of them.
pub proof fn lemma_decimal_grows(digits: Seq<u8>, n: int)
    requires
        0 <= n <= digits.len(),
        all_digits(digits),
    ensures
        decimal(digits.take(n)) <= decimal(digits),
    decreases digits.len() - n,
{
    if n < digits.len() {
        lemma_decimal_grows(digits, n + 1);
        assert(digits.take(n + 1).drop_last() =~= digits.take(n));
        assert(is_digit(digits[n]));
    } else {
        assert(digits.take(n) =~= digits);
    }
}

/// Reads the number that `text` spells.
pub fn parse_number(text: &[u8]) -> (value: Option<u32>)
    ensures
        value == number(text@),
{
    let start: usize = if text.len() > 0 && text[0] == 43 {
        1
    } else {
        0
    };
    let ghost digits = text@.skip(start as int);
    assert(text@.skip(0) =~= text@);
    if start == text.len() {
        return None;
    }
    let mut value: u64 = 0;
    let mut i: usize = start;
    while i < text.len()
        invariant
            start <= i <= text.len(),
            start < text.len(),
            start as int == if text@.len() > 0 && text@[0] == 43 {
                1int
            } else {
                0int
            },
            digits == text@.skip(start as int),
            text@.skip(0) == text@,
            all_digits(digits.take(i - start)),
            value == decimal(digits.take(i - start)),
            value <= u32::MAX,
        decreases text.len() - i,
    {
        let byte = text[i];
        proof {
            assert(digits.take(i - start + 1).drop_last() =~= digits.take(i - start));
            assert(digits[i - start] == byte);
        }
        if byte < 48 || byte > 57 {
            proof {
                assert(!is_digit(digits[i - start]));
            }
            return None;
        }
        value = value * 10 + (byte - 48) as u64;
        proof {
            assert(digits.take(i - start + 1).last() == byte);
            assert(value == decimal(digits.take(i - start + 1)));
            assert forall|k: int| 0 <= k < i - start + 1 implies is_digit(
                #[trigger] digits.take(i - start + 1)[k],
            ) by {
                if k < i - start {
                    assert(digits.take(i - start)[k] == digits.take(i - start + 1)[k]);
                }
            }
        }
        if value > 0xffff_ffff {
            proof {
                if all_digits(digits) {
                    lemma_decimal_grows(digits, i - start + 1);
                }
            }
            return None;
        }
        i += 1;
    }
    proof {
        assert(digits.len() == text@.len() - start);
        assert(digits.take(i - start) =~= digits);
        assert(all_digits(digits));
        assert(decimal(digits) == value);
    }
    Some(value as u32)
}

/// `word` stands in `text` at the index `at`.
pub open spec fn occurs_at(text: Seq<u8>, word: Seq<u8>, at: int) -> bool {
    &&& 0 <= at
    &&& at + word.len() <= text.len()
    &&& text.subrange(at, at + word.len()) == word
}

/// The index of the first occurrence of `word` in `text`.
#[verifier::opaque]
pub open spec fn first_occurrence(text: Seq<u8>, word: Seq<u8>) -> Option<int> {
    if exists|at: int| occurs_at(text, word, at) {
        Some(
            choose|at: int|
                occurs_at(text, word, at) && forall|before: int|
                    before < at ==> !occurs_at(text, word, before),
        )
    } else {
        None
    }
}

/// An occurrence with none before it is the first one.
pub proof fn lemma_first_occurrence(text: Seq<u8>, word: Seq<u8>, at: int)
    requires
        occurs_at(text, word, at),
        forall|before: int| before < at ==> !occurs_at(text, word, before),
    ensures
        first_occurrence(text, word) == Some(at),
{
    reveal(first_occurrence);
    let found = first_occurrence(text, word)->Some_0;
    if found < at {
        assert(!occurs_at(text, word, found));
    }
    if at < found {
        assert(!occurs_at(text, word, at));
    }
}

/// Finds the first occurrence of `word` in `text`.
pub fn find(text: &[u8], word: &[u8]) -> (at: Option<usize>)
    ensures
        match at {
            Some(at) => first_occurrence(text@, word@) == Some(at as int) && occurs_at(
                text@,
                word@,
                at as int,
            ),
            None => first_occurrence(text@, word@) is None,
        },
{
    proof {
        reveal(first_occurrence);
    }
    if word.len() > text.len() {
        return None;
    }
    let last: usize = text.len() - word.len();
    let mut at: usize = 0;
    while at <= last
        invariant
            at <= last + 1,
            last == text.len() - word.len(),
            forall|before: int| before < at ==> !occurs_at(text@, word@, before),
        decreases last + 1 - at,
    {
        let mut k: usize = 0;
        while k < word.len() && text[at + k] == word[k]
            invariant
                k <= word.len(),
                at + word.len() <= text.len(),
                forall|j: int| 0 <= j < k ==> text@[at + j] == word@[j],
            decreases word.len() - k,
        {
            k += 1;
        }
        if k == word.len() {
            proof {
                assert(text@.subrange(at as int, at + word.len()) =~= word@);
                lemma_first_occurrence(text@, word@, at as int);
            }
            return Some(at);
        }
        proof {
            assert(!occurs_at(text@, word@, at as int)) by {
                if occurs_at(text@, word@, at as int) {
                    assert(text@.subrange(at as int, at + word.len())[k as int] == word@[k as int]);
                }
            }
        }
        at += 1;
    }
    None
}

/// The text `AppId=`.
pub open spec fn app_id_key() -> Seq<u8> {
    seq![65u8, 112u8, 112u8, 73u8, 100u8, 61u8]
}

/// The application that a command line names: the number between the first
/// `AppId=` and the first NUL byte after it. A command line without the
/// key, without a NUL byte after it or without a number in between names
/// none.
pub open spec fn app_id_in(cmdline: Seq<u8>) -> Option<u32> {
    match first_occurrence(cmdline, app_id_key()) {
        Some(at) => {
            let rest = cmdline.skip(at + 6);
            match first_occurrence(rest, seq![0u8]) {
                Some(end) => number(rest.take(end)),
                None => None,
            }
        },
        None => None,
    }
}

/// The bytes of [`app_id_key`].
fn key_bytes() -> (key: Vec<u8>)
    ensures
        key@ == app_id_key(),
        key@.len() == 6,
{
    let mut key: Vec<u8> = Vec::new();
    key.push(65);
    key.push(112);
    key.push(112);
    key.push(73);
    key.push(100);
    key.push(61);
    assert(key@ =~= app_id_key());
    key
}

/// Reads the application id out of the command line of a process.
pub fn get_app_id(cmdline: &[u8]) -> (app_id: Option<u32>)
    ensures
        app_id == app_id_in(cmdline@),
{
    let key = key_bytes();
    let mut nul: Vec<u8> = Vec::new();
    nul.push(0);
    assert(nul@ =~= seq![0u8]);
    let word = key.as_slice();
    assert(word@.len() == 6);
    match find(cmdline, word) {
        Some(at) => {
            let total: usize = cmdline.len();
            assert(at + 6 <= total) by {
                assert(occurs_at(cmdline@, word@, at as int));
            }
            let rest = slice_subrange(cmdline, at + 6, total);
            assert(rest@ =~= cmdline@.skip(at + 6));
            match find(rest, nul.as_slice()) {
                Some(end) => {
                    let digits = slice_subrange(rest, 0, end);
                    assert(digits@ =~= rest@.take(end as int));
                    parse_number(digits)
                },
                None => None,
            }
        },
        None => None,
    }
}

/// How many bytes the word at the head of `text` has.
pub open spec fn word_len(text: Seq<u8>) -> int
    decreases text.len(),
{
    if text.len() == 0 || is_space(text[0]) {
        0
    } else {
        1 + word_len(text.skip(1))
    }
}

/// The numbers among the words of `text`, in order. Words are separated by
/// any run of [`is_space`] bytes; a word that spells no number is left out.
pub open spec fn numbers_in(text: Seq<u8>) -> Seq<u32>
    decreases text.len(),
    via numbers_in_decreases
{
    if text.len() == 0 {
        Seq::empty()
    } else if is_space(text[0]) {
        numbers_in(text.skip(1))
    } else {
        let n = word_len(text);
        match number(text.take(n)) {
            Some(value) => seq![value] + numbers_in(text.skip(n)),
            None => numbers_in(text.skip(n)),
        }
    }
}

#[via_fn]
proof fn numbers_in_decreases(text: Seq<u8>) {
    if text.len() > 0 && !is_space(text[0]) {
        lemma_word_len(text, 1);
    }
}

/// A word is as long as its run of bytes that are no separators.
pub proof fn lemma_word_len(text: Seq<u8>, n: int)
    requires
        0 <= n <= text.len(),
        forall|i: int| 0 <= i < n ==> !is_space(#[trigger] text[i]),
    ensures
        n <= word_len(text) <= text.len(),
        (n == text.len() || is_space(text[n])) ==> word_len(text) == n,
    decreases text.len(),
{
    if text.len() > 0 && !is_space(text[0]) {
        let rest = text.skip(1);
        let m = if n > 0 { n - 1 } else { 0 };
        assert forall|i: int| 0 <= i < m implies !is_space(#[trigger] rest[i]) by {
            assert(rest[i] == text[i + 1]);
        }
        lemma_word_len(rest, m);
        if n > 0 && n < text.len() {
            assert(rest[n - 1] == text[n]);
        }
    }
}

/// Reads the process ids out of the `children` file of a task.
pub fn get_children(text: &[u8]) -> (pids: Vec<u32>)
    ensures
        pids@ == numbers_in(text@),
{
    let mut pids: Vec<u32> = Vec::new();
    let mut i: usize = 0;
    assert(text@.skip(0) =~= text@);
    while i < text.len()
        invariant
            i <= text.len(),
            pids@ + numbers_in(text@.skip(i as int)) == numbers_in(text@),
        decreases text.len() - i,
    {
        let ghost rest = text@.skip(i as int);
        if space(text[i]) {
            proof {
                assert(rest.skip(1) =~= text@.skip(i + 1));
            }
            i += 1;
        } else {
            let mut end: usize = i + 1;
            while end < text.len() && !space(text[end])
                invariant
                    i < end <= text.len(),
                    forall|k: int| i <= k < end ==> !is_space(#[trigger] text@[k]),
                decreases text.len() - end,
            {
                end += 1;
            }
            proof {
                assert forall|k: int| 0 <= k < end - i implies !is_space(#[trigger] rest[k]) by {
                    assert(rest[k] == text@[i + k]);
                }
                if end < text.len() {
                    assert(rest[end - i] == text@[end as int]);
                }
                lemma_word_len(rest, end - i);
                assert(rest.skip(end - i) =~= text@.skip(end as int));
            }
            let word = slice_subrange(text, i, end);
            assert(word@ =~= rest.take(end - i));
            match parse_number(word) {
                Some(pid) => {
                    let ghost before = pids@;
                    pids.push(pid);
                    proof {
                        assert(pids@ + numbers_in(text@.skip(end as int)) =~= before + (seq![pid]
                            + numbers_in(text@.skip(end as int))));
                    }
                },
                None => {},
            }
            i = end;
        }
    }
    proof {
        assert(text@.skip(i as int) =~= Seq::<u8>::empty());
        assert(pids@ + Seq::<u32>::empty() =~= pids@);
    }
    pids
}

/// Whether a byte separates words.
fn space(byte: u8) -> (yes: bool)
    ensures
        yes == is_space(byte),
{
    byte == 32 || byte == 9 || byte == 10 || byte == 12 || byte == 13
}

/// The name that a `comm` file holds: its bytes without the last one, which
/// ends the line.
pub open spec fn comm_name(comm: Seq<u8>) -> Seq<u8> {
    comm.drop_last()
}

/// Whether the process whose `comm` file holds `comm` is called `name`.
pub fn is_named(comm: &[u8], name: &[u8]) -> (yes: bool)
    requires
        comm@.len() > 0,
    ensures
        yes <==> comm_name(comm@) == name@,
{
    if comm.len() - 1 != name.len() {
        return false;
    }
    let mut i: usize = 0;
    while i < name.len()
        invariant
            i <= name.len(),
            comm.len() == name.len() + 1,
            forall|k: int| 0 <= k < i ==> comm@[k] == name@[k],
        decreases name.len() - i,
    {
        if comm[i] != name[i] {
            proof {
                assert(comm_name(comm@)[i as int] != name@[i as int]);
            }
            return false;
        }
        i += 1;
    }
    proof {
        assert(comm_name(comm@) =~= name@);
    }
    true
}

} // verus!
