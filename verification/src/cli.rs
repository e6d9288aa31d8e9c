//! Checks on the command line's values: counts, buffer sizes and the core to pin to.
use crate::pointer_chasing::NODE_SIZE_BYTES;
use vstd::prelude::*;

verus! {

// ---------------------------------------------------------------------------
// Unsigned decimal numbers
// ---------------------------------------------------------------------------

/// `c` is one of the ASCII digits `0` to `9`.
pub open spec fn is_decimal_digit(c: char) -> bool {
    '0' <= c && c <= '9'
}

/// The value of the ASCII digit `c`.
pub open spec fn digit_value(c: char) -> nat {
    (c as int - '0' as int) as nat
}

/// The value of a string of decimal digits, most significant first.
pub open spec fn digits_value(digits: Seq<char>) -> nat
    decreases digits.len(),
{
    if digits.len() == 0 {
        0
    } else {
        digits_value(digits.drop_last()) * 10 + digit_value(digits.last())
    }
}

/// The digits of `text` once an optional leading `+` is taken off.
pub open spec fn unsigned_digits(text: Seq<char>) -> Seq<char> {
    if text.len() > 0 && text[0] == '+' {
        text.drop_first()
    } else {
        text
    }
}

/// The value of `text` read as an unsigned decimal number: an optional `+` followed by
/// one or more ASCII digits and nothing else; `None` for any other text.
pub open spec fn decimal_value(text: Seq<char>) -> Option<nat> {
    let digits = unsigned_digits(text);
    if digits.len() > 0 && forall|i: int| 0 <= i < digits.len() ==> is_decimal_digit(#[trigger] digits[i]) {
        Some(digits_value(digits))
    } else {
        None
    }
}

/// The ASCII digit for `d`, which is below 10.
pub open spec fn digit_char(d: nat) -> char {
    ('0' as int + d) as char
}

/// The decimal text of `n`, without leading zeros (`0` for zero).
pub open spec fn decimal_text(n: nat) -> Seq<char>
    decreases n,
{
    if n < 10 {
        seq![digit_char(n)]
    } else {
        decimal_text(n / 10).push(digit_char(n % 10))
    }
}

/// The decimal text of `n` is a string of digits, without a sign, whose value is `n`.
pub proof fn lemma_decimal_text_value(n: nat)
    ensures
        decimal_text(n).len() > 0,
        decimal_text(n)[0] != '+',
        forall|i: int| 0 <= i < decimal_text(n).len() ==> is_decimal_digit(#[trigger] decimal_text(n)[i]),
        digits_value(decimal_text(n)) == n,
        decimal_value(decimal_text(n)) == Some(n),
    decreases n,
{
    let t = decimal_text(n);
    if n < 10 {
        assert(t.drop_last() =~= Seq::<char>::empty());
        assert(digit_value(digit_char(n)) == n);
        assert(t.last() == digit_char(n));
        assert(digits_value(t) == digits_value(t.drop_last()) * 10 + digit_value(t.last()));
    } else {
        lemma_decimal_text_value(n / 10);
        let prefix = decimal_text(n / 10);
        assert(t.drop_last() =~= prefix);
        assert(digit_value(digit_char(n % 10)) == n % 10);
        assert(n == (n / 10) * 10 + n % 10);
        assert(t.last() == digit_char(n % 10));
        assert(digits_value(t) == digits_value(t.drop_last()) * 10 + digit_value(t.last()));
        assert forall|i: int| 0 <= i < t.len() implies is_decimal_digit(#[trigger] t[i]) by {
            if i < prefix.len() {
                assert(t[i] == prefix[i]);
            }
        }
        assert(t[0] == prefix[0]);
    }
    assert(unsigned_digits(t) == t);
}

/// `text` read as an unsigned decimal number that fits in a `usize`.
pub open spec fn usize_value(text: Seq<char>) -> Option<usize> {
    match decimal_value(text) {
        Some(v) => if v <= usize::MAX {
            Some(v as usize)
        } else {
            None
        },
        None => None,
    }
}

/// Reads `text` as an unsigned decimal number that fits in a `usize`: an optional `+`
/// and one or more ASCII digits, as `str::parse::<usize>` accepts them.
pub fn parse_usize(text: &str) -> (value: Option<usize>)
    ensures
        value == usize_value(text@),
{
    let len = text.unicode_len();
    let mut pos: usize = 0;
    if len > 0 && text.get_char(0) == '+' {
        pos = 1;
    }
    let ghost digits = unsigned_digits(text@);
    assert(digits =~= text@.subrange(pos as int, len as int));
    if pos == len {
        assert(digits.len() == 0);
        return None;
    }
    let mut acc: usize = 0;
    let mut overflow = false;
    let mut i = pos;
    while i < len
        invariant
            len == text@.len(),
            pos <= i <= len,
            digits =~= text@.subrange(pos as int, len as int),
            digits == unsigned_digits(text@),
            forall|j: int| pos <= j < i ==> is_decimal_digit(#[trigger] text@[j]),
            !overflow ==> acc == digits_value(text@.subrange(pos as int, i as int)),
            overflow ==> digits_value(text@.subrange(pos as int, i as int)) > usize::MAX,
        decreases len - i,
    {
        let c = text.get_char(i);
        if c < '0' || c > '9' {
            assert(!is_decimal_digit(digits[i - pos]));
            return None;
        }
        let digit = (c as u32 - '0' as u32) as usize;
        let ghost prefix = text@.subrange(pos as int, (i + 1) as int);
        assert(prefix.drop_last() =~= text@.subrange(pos as int, i as int));
        assert(prefix.last() == c);
        if !overflow {
            match acc.checked_mul(10) {
                Some(scaled) => match scaled.checked_add(digit) {
                    Some(next) => {
                        acc = next;
                    },
                    None => {
                        overflow = true;
                    },
                },
                None => {
                    overflow = true;
                },
            }
        }
        i = i + 1;
    }
    assert(text@.subrange(pos as int, len as int) =~= digits);
    if overflow {
        None
    } else {
        Some(acc)
    }
}

// ---------------------------------------------------------------------------
// Positive counts
// ---------------------------------------------------------------------------

/// What [`parse_positive_usize`] gives for a text.
pub open spec fn positive_count_result(text: Seq<char>) -> Result<usize, Seq<char>> {
    match usize_value(text) {
        None => Err("value must be a positive integer"@),
        Some(v) => if v == 0 {
            Err("value must be greater than zero"@)
        } else {
            Ok(v)
        },
    }
}

/// Reads a count that must be a positive integer, such as the number of iterations per
/// sample or the number of samples.
pub fn parse_positive_usize(value: &str) -> (result: Result<usize, String>)
    ensures
        result matches Ok(n) ==> (positive_count_result(value@) matches Ok(m) && m == n),
        result matches Err(e) ==> (positive_count_result(value@) matches Err(m) && m == e@),
{
    match parse_usize(value) {
        None => Err(String::from_str("value must be a positive integer")),
        Some(v) => if v == 0 {
            Err(String::from_str("value must be greater than zero"))
        } else {
            Ok(v)
        },
    }
}

/// Law: the decimal text of any positive count reads back as that count.
pub proof fn lemma_positive_count_reads_back(n: usize)
    requires
        n > 0,
    ensures
        positive_count_result(decimal_text(n as nat)) matches Ok(m) && m == n,
{
    lemma_decimal_text_value(n as nat);
}

// ---------------------------------------------------------------------------
// Buffer sizes
// ---------------------------------------------------------------------------

/// What `<bytesize::ByteSize as FromStr>::from_str` gives for a text: the number of
/// bytes, or its error message.
pub uninterp spec fn byte_size_from_str(text: Seq<char>) -> Result<u64, Seq<char>>;

/// What `bytesize::ByteSize` displays for a number of bytes, such as `128 B` or `8.0 KiB`.
pub uninterp spec fn byte_size_text(bytes: u64) -> Seq<char>;

/// Calls `<bytesize::ByteSize as FromStr>::from_str` and hands back the number of bytes
/// or the crate's error message. The contract names the result, and states the one
/// case that the crate's source settles first: a text that `str::parse::<u64>` accepts
/// is that many bytes.
#[verifier::external_body]
fn parse_byte_size(text: &str) -> (result: Result<u64, String>)
    ensures
        result matches Ok(n) ==> (byte_size_from_str(text@) matches Ok(m) && m == n),
        result matches Err(e) ==> (byte_size_from_str(text@) matches Err(m) && m == e@),
        decimal_value(text@) is Some && decimal_value(text@)->0 <= u64::MAX ==> (result is Ok
            && result->Ok_0 == decimal_value(text@)->0),
{
    match text.parse::<bytesize::ByteSize>() {
        Ok(size) => Ok(size.0),
        Err(message) => Err(message),
    }
}

/// Calls `<bytesize::ByteSize as Display>::fmt` through `to_string` on `ByteSize(bytes)`.
/// The contract names the text, and states the case that the crate's source settles
/// plainly: below 1024 bytes the text is the number in decimal followed by ` B`.
#[verifier::external_body]
fn display_byte_size(bytes: u64) -> (text: String)
    ensures
        text@ == byte_size_text(bytes),
        bytes < 1024 ==> text@ == decimal_text(bytes as nat) + " B"@,
{
    bytesize::ByteSize(bytes).to_string()
}

/// The label that reports show for a buffer of `bytes` bytes, such as `128 B` or
/// `8.0 KiB`.
pub fn size_label(bytes: u64) -> (label: String)
    ensures
        label@ == byte_size_text(bytes),
        bytes < 1024 ==> label@ == decimal_text(bytes as nat) + " B"@,
{
    display_byte_size(bytes)
}

/// The smallest buffer that is accepted: room for two nodes.
pub const MIN_BUFFER_SIZE_BYTES: u64 = 128;

/// `result` is the outcome `expected`: the same number, or an error with that message.
pub open spec fn same_outcome(result: Result<u64, String>, expected: Result<u64, Seq<char>>) -> bool {
    match result {
        Ok(n) => expected == Ok::<u64, Seq<char>>(n),
        Err(e) => expected == Err::<u64, Seq<char>>(e@),
    }
}

/// What [`check_buffer_size`] gives for a size in bytes.
pub open spec fn checked_buffer_size(size: u64) -> Result<u64, Seq<char>> {
    if size < MIN_BUFFER_SIZE_BYTES {
        Err("buffer size must be at least 128 B"@)
    } else if size > usize::MAX {
        Err("buffer size exceeds usize::MAX"@)
    } else {
        Ok(size)
    }
}

/// The outcome of parsing, as a number of bytes or an error message.
pub open spec fn parsed_view(parsed: Result<u64, String>) -> Result<u64, Seq<char>> {
    match parsed {
        Ok(n) => Ok(n),
        Err(e) => Err(e@),
    }
}

/// What [`buffer_size_from_parsed`] gives for the outcome of parsing a buffer size.
pub open spec fn buffer_outcome(parsed: Result<u64, Seq<char>>) -> Result<u64, Seq<char>> {
    match parsed {
        Err(message) => Err("invalid buffer size: "@ + message),
        Ok(size) => checked_buffer_size(size),
    }
}

/// What [`parse_buffer_size`] gives for a text.
pub open spec fn buffer_size_result(text: Seq<char>) -> Result<u64, Seq<char>> {
    buffer_outcome(byte_size_from_str(text))
}

/// Law: a size is accepted, unchanged, exactly when it holds two nodes (at least 128 bytes)
/// and fits in a `usize`; every other size is refused.
pub proof fn lemma_buffer_size_bounds(size: u64)
    ensures
        MIN_BUFFER_SIZE_BYTES <= size && size <= usize::MAX ==> checked_buffer_size(size)
            == Ok::<u64, Seq<char>>(size),
        size < MIN_BUFFER_SIZE_BYTES ==> checked_buffer_size(size) is Err,
        size > usize::MAX ==> checked_buffer_size(size) is Err,
        checked_buffer_size(size) matches Ok(n) ==> n == size,
{
}

/// Checks a buffer size in bytes: it must hold at least two nodes and fit in a `usize`.
pub fn check_buffer_size(size: u64) -> (result: Result<u64, String>)
    ensures
        same_outcome(result, checked_buffer_size(size)),
        MIN_BUFFER_SIZE_BYTES <= size && size <= usize::MAX ==> (result is Ok && result->Ok_0
            == size),
        size < MIN_BUFFER_SIZE_BYTES || size > usize::MAX ==> result is Err,
{
    proof {
        lemma_buffer_size_bounds(size);
    }
    let min_size: u64 = (2 * NODE_SIZE_BYTES) as u64;
    assert(min_size == MIN_BUFFER_SIZE_BYTES);
    if size < min_size {
        let mut message = String::from_str("buffer size must be at least ");
        let shown = display_byte_size(min_size);
        message.append(shown.as_str());
        proof {
            reveal_strlit("buffer size must be at least ");
            reveal_strlit(" B");
            reveal_strlit("buffer size must be at least 128 B");
            lemma_decimal_text_128();
            assert(message@ =~= "buffer size must be at least 128 B"@);
        }
        Err(message)
    } else if size > usize::MAX as u64 {
        Err(String::from_str("buffer size exceeds usize::MAX"))
    } else {
        Ok(size)
    }
}

proof fn lemma_decimal_text_128()
    ensures
        decimal_text(128) =~= seq!['1', '2', '8'],
{
    reveal_with_fuel(decimal_text, 3);
    assert(decimal_text(1) =~= seq!['1']);
    assert(decimal_text(12) =~= seq!['1', '2']);
}

/// Finishes reading a buffer size from what `bytesize` made of the text: a number of
/// bytes is checked, and an error message is reported as an invalid buffer size.
pub fn buffer_size_from_parsed(parsed: Result<u64, String>) -> (result: Result<u64, String>)
    ensures
        same_outcome(result, buffer_outcome(parsed_view(parsed))),
{
    match parsed {
        Ok(size) => check_buffer_size(size),
        Err(err) => {
            let mut message = String::from_str("invalid buffer size: ");
            message.append(err.as_str());
            Err(message)
        },
    }
}

/// Reads a buffer size such as `32kiB` or `1MiB`, in bytes; it must hold at least two
/// nodes and fit in a `usize`. A plain number is that many bytes.
pub fn parse_buffer_size(value: &str) -> (result: Result<u64, String>)
    ensures
        same_outcome(result, buffer_size_result(value@)),
        decimal_value(value@) is Some && decimal_value(value@)->0 <= u64::MAX ==> same_outcome(
            result,
            checked_buffer_size(decimal_value(value@)->0 as u64),
        ),
        decimal_value(value@) is Some && MIN_BUFFER_SIZE_BYTES <= decimal_value(value@)->0
            <= usize::MAX ==> (result is Ok && result->Ok_0 == decimal_value(value@)->0),
{
    proof {
        if decimal_value(value@) is Some && MIN_BUFFER_SIZE_BYTES <= decimal_value(value@)->0
            <= usize::MAX {
            lemma_buffer_size_bounds(decimal_value(value@)->0 as u64);
        }
    }
    let parsed = parse_byte_size(value);
    assert(parsed_view(parsed) == byte_size_from_str(value@));
    buffer_size_from_parsed(parsed)
}

/// Law: a buffer size that is accepted fits in a `usize` and holds at least two nodes,
/// so a ring can be built in it.
pub proof fn lemma_accepted_buffer_holds_two_nodes(text: Seq<char>)
    requires
        buffer_size_result(text) is Ok,
    ensures
        buffer_size_result(text)->Ok_0 <= usize::MAX,
        buffer_size_result(text)->Ok_0 / (NODE_SIZE_BYTES as u64) >= 2,
{
    let size = buffer_size_result(text)->Ok_0;
    assert(size >= 128);
    assert(size / 64 >= 2) by (nonlinear_arith)
        requires
            size >= 128,
    ;
}

// ---------------------------------------------------------------------------
// Core selection
// ---------------------------------------------------------------------------

/// The core to pin the benchmark to: the requested id if it is among `core_ids`, or the
/// first available core when none is requested.
pub open spec fn selected_core(core_ids: Seq<usize>, requested: Option<usize>) -> Option<usize> {
    match requested {
        Some(id) => if core_ids.contains(id) {
            Some(id)
        } else {
            None
        },
        None => if core_ids.len() > 0 {
            Some(core_ids[0])
        } else {
            None
        },
    }
}

/// Law: a requested core is chosen exactly when it is available, and then it is the core
/// with the requested id; with no request, the first available core is chosen. Whatever
/// is chosen is an available core.
pub proof fn lemma_selected_core(core_ids: Seq<usize>, requested: Option<usize>)
    ensures
        requested is Some ==> (selected_core(core_ids, requested) is Some <==> core_ids.contains(
            requested->0,
        )),
        requested is Some && selected_core(core_ids, requested) is Some ==> selected_core(
            core_ids,
            requested,
        ) == requested,
        selected_core(core_ids, requested) is Some ==> core_ids.contains(
            selected_core(core_ids, requested)->0,
        ),
        requested is None && core_ids.len() > 0 ==> selected_core(core_ids, requested) == Some(
            core_ids[0],
        ),
        requested is None && core_ids.len() == 0 ==> selected_core(core_ids, requested) is None,
{
    if requested is None && core_ids.len() > 0 {
        assert(core_ids.contains(core_ids[0]));
    }
}

/// Picks the core to pin the benchmark to among the available `core_ids`: the requested
/// one, which must be available, or else the first one. `None` when that core is missing.
pub fn select_core(core_ids: &Vec<usize>, requested: Option<usize>) -> (core: Option<usize>)
    ensures
        core == selected_core(core_ids@, requested),
        requested is Some ==> (core is Some <==> core_ids@.contains(requested->0)),
        requested is Some && core is Some ==> core == requested,
        core is Some ==> core_ids@.contains(core->0),
        requested is None && core_ids.len() > 0 ==> core == Some(core_ids@[0]),
        requested is None && core_ids.len() == 0 ==> core is None,
{
    proof {
        lemma_selected_core(core_ids@, requested);
    }
    match requested {
        Some(id) => {
            let mut i: usize = 0;
            while i < core_ids.len()
                invariant
                    0 <= i <= core_ids.len(),
                    requested == Some(id),
                    forall|j: int| 0 <= j < i ==> core_ids@[j] != id,
                decreases core_ids.len() - i,
            {
                if core_ids[i] == id {
                    assert(core_ids@[i as int] == id);
                    assert(core_ids@.contains(id));
                    return Some(id);
                }
                i = i + 1;
            }
            None
        },
        None => if core_ids.len() > 0 {
            Some(core_ids[0])
        } else {
            None
        },
    }
}

} // verus!
