use vstd::prelude::*;

verus! {

/// The mode of id generator running
pub enum GeneratorMode {
    /// In normal mode generator should generate next unique id
    Normal,
    /// In dry run mode generator should return initial id to compare with input and output nodes ids
    DryRun,
}

/// The value of the id counter after one generation in the given mode:
/// a dry run leaves it unchanged, a normal run advances it by one
/// (wrapping around at `usize::MAX`, as an atomic `fetch_add` does).
pub open spec fn next_counter(recent_id: usize, mode: GeneratorMode) -> usize {
    match mode {
        GeneratorMode::DryRun => recent_id,
        GeneratorMode::Normal => if recent_id == usize::MAX {
            0
        } else {
            (recent_id + 1) as usize
        },
    }
}

/// Moves the counter on as one generation in `mode` does.
fn advance_counter(recent_id: &mut usize, mode: GeneratorMode)
    ensures
        *final(recent_id) == next_counter(*old(recent_id), mode),
{
    match mode {
        GeneratorMode::DryRun => {},
        GeneratorMode::Normal => {
            if *recent_id == usize::MAX {
                *recent_id = 0;
            } else {
                *recent_id = *recent_id + 1;
            }
        },
    }
}

/// Trait with id generator ability.
///
/// An id is a function of the counter value only: `spec_generate_id`
/// names it, and `generate_id` returns it and moves the counter on
/// as `next_counter` says.
pub trait IdGenerator<I: View> {
    /// The identifier (by its view) generated from the counter value `recent_id`.
    spec fn spec_generate_id(recent_id: usize) -> I::V;

    fn generate_id(recent_id: &mut usize, mode: GeneratorMode) -> (id: I)
        ensures
            id@ == Self::spec_generate_id(*old(recent_id)),
            *final(recent_id) == next_counter(*old(recent_id), mode),
    ;
}

/// Default id generator implementation for usize id type
impl IdGenerator<usize> for () {
    open spec fn spec_generate_id(recent_id: usize) -> usize {
        recent_id
    }

    fn generate_id(recent_id: &mut usize, mode: GeneratorMode) -> (id: usize) {
        let id = *recent_id;
        advance_counter(recent_id, mode);
        id
    }
}

/// The character of a decimal digit `d` (for `d < 10`).
pub open spec fn decimal_digit(d: nat) -> char {
    (48 + d) as char
}

/// The decimal notation of `n`, most significant digit first, without leading zeros.
pub open spec fn decimal_chars(n: nat) -> Seq<char>
    decreases n,
{
    if n < 10 {
        seq![decimal_digit(n)]
    } else {
        decimal_chars(n / 10).push(decimal_digit(n % 10))
    }
}

/// The decimal notation of a number has at least one digit.
proof fn lemma_decimal_chars_len(n: nat)
    ensures
        decimal_chars(n).len() >= 1,
    decreases n,
{
    if n >= 10 {
        lemma_decimal_chars_len(n / 10);
    }
}

/// Distinct numbers have distinct decimal notations.
pub proof fn lemma_decimal_chars_injective(a: nat, b: nat)
    requires
        decimal_chars(a) == decimal_chars(b),
    ensures
        a == b,
    decreases a,
{
    if a < 10 && b < 10 {
        assert(decimal_chars(a) == seq![decimal_digit(a)]);
        assert(decimal_chars(b) == seq![decimal_digit(b)]);
        assert(seq![decimal_digit(a)][0] == decimal_digit(a));
        assert(seq![decimal_digit(b)][0] == decimal_digit(b));
        assert(decimal_digit(a) == decimal_digit(b));
    } else if a < 10 {
        lemma_decimal_chars_len(b / 10);
        assert(decimal_chars(b).len() >= 2);
    } else if b < 10 {
        lemma_decimal_chars_len(a / 10);
        assert(decimal_chars(a).len() >= 2);
    } else {
        let da = decimal_chars(a);
        let db = decimal_chars(b);
        assert(da.last() == db.last());
        assert(decimal_digit(a % 10) == decimal_digit(b % 10));
        assert(da.drop_last() =~= decimal_chars(a / 10));
        assert(db.drop_last() =~= decimal_chars(b / 10));
        lemma_decimal_chars_injective(a / 10, b / 10);
    }
}

/// The text of the string identifier generated from the counter value `recent_id`:
/// `ML_` followed by the counter in decimal.
pub open spec fn generated_string_id(recent_id: usize) -> Seq<char> {
    seq!['M', 'L', '_'] + decimal_chars(recent_id as nat)
}

/// Distinct counter values give distinct string identifiers.
pub proof fn lemma_generated_string_ids_distinct(a: usize, b: usize)
    requires
        a != b,
    ensures
        generated_string_id(a) != generated_string_id(b),
{
    if generated_string_id(a) == generated_string_id(b) {
        assert(generated_string_id(a).skip(3) =~= decimal_chars(a as nat));
        assert(generated_string_id(b).skip(3) =~= decimal_chars(b as nat));
        lemma_decimal_chars_injective(a as nat, b as nat);
    }
}

/// The decimal digit `d` as a string of one character.
fn digit_str(d: usize) -> (text: &'static str)
    requires
        d < 10,
    ensures
        text@ == seq![decimal_digit(d as nat)],
{
    if d == 0 {
        proof { reveal_strlit("0"); }
        "0"
    } else if d == 1 {
        proof { reveal_strlit("1"); }
        "1"
    } else if d == 2 {
        proof { reveal_strlit("2"); }
        "2"
    } else if d == 3 {
        proof { reveal_strlit("3"); }
        "3"
    } else if d == 4 {
        proof { reveal_strlit("4"); }
        "4"
    } else if d == 5 {
        proof { reveal_strlit("5"); }
        "5"
    } else if d == 6 {
        proof { reveal_strlit("6"); }
        "6"
    } else if d == 7 {
        proof { reveal_strlit("7"); }
        "7"
    } else if d == 8 {
        proof { reveal_strlit("8"); }
        "8"
    } else {
        proof { reveal_strlit("9"); }
        "9"
    }
}

/// Appends the decimal notation of `n` to `text`.
fn write_decimal(n: usize, text: &mut String)
    ensures
        final(text)@ == old(text)@ + decimal_chars(n as nat),
    decreases n,
{
    if n < 10 {
        text.append(digit_str(n));
    } else {
        write_decimal(n / 10, text);
        let ghost before = text@;
        text.append(digit_str(n % 10));
        proof {
            assert(decimal_chars(n as nat) == decimal_chars((n / 10) as nat).push(
                decimal_digit((n % 10) as nat),
            ));
            assert(text@ =~= old(text)@ + decimal_chars(n as nat));
        }
    }
}

/// Default id generator implementation for the String id type
impl IdGenerator<String> for () {
    open spec fn spec_generate_id(recent_id: usize) -> Seq<char> {
        generated_string_id(recent_id)
    }

    fn generate_id(recent_id: &mut usize, mode: GeneratorMode) -> (id: String) {
        let mut id = String::from_str("ML_");
        proof {
            reveal_strlit("ML_");
        }
        write_decimal(*recent_id, &mut id);
        proof {
            assert(id@ =~= generated_string_id(*old(recent_id)));
        }
        advance_counter(recent_id, mode);
        id
    }
}

} // verus!
