//! Turning typed input into codes.
use vstd::prelude::*;
use vstd::string::*;
use crate::mastermind_mechanics::{CodeType, CodeTypeError, ConfigType};

verus! {

#[verifier::external_type_specification]
#[verifier::external_body]
pub struct ExTextIoError(text_io::Error);

/// Whether `c` is one of the decimal digits `0`..`9`.
pub open spec fn is_digit(c: char) -> bool {
    '0' <= c && c <= '9'
}

/// The decimal digits of `s`, in order, every other character dropped.
pub open spec fn digits_of(s: Seq<char>) -> Seq<u8>
    decreases s.len(),
{
    if s.len() == 0 {
        Seq::empty()
    } else if is_digit(s.last()) {
        digits_of(s.drop_last()).push((s.last() as int - '0' as int) as u8)
    } else {
        digits_of(s.drop_last())
    }
}

/// The decimal digits of `text`, every other character dropped.
fn digits_in(text: &String) -> (r: Vec<u8>)
    ensures
        r@ == digits_of(text@),
{
    let s = text.as_str();
    let n = s.unicode_len();
    let mut r: Vec<u8> = Vec::new();
    let mut i: usize = 0;
    while i < n
        invariant
            n == s@.len(),
            s@ == text@,
            i <= n,
            r@ == digits_of(s@.subrange(0, i as int)),
        decreases n - i,
    {
        let c = s.get_char(i);
        proof {
            assert(s@.subrange(0, i as int + 1).drop_last() =~= s@.subrange(0, i as int));
        }
        if '0' <= c && c <= '9' {
            let d = (c as u32 - '0' as u32) as u8;
            r.push(d);
        }
        i = i + 1;
    }
    assert(s@.subrange(0, n as int) =~= s@);
    r
}

/// Convert typed input to a code of the configuration: the digits of the text
/// are the entries, every other character is ignored. Input that could not be
/// read gives `DecodingError`; otherwise the entries are checked as by
/// `CodeType::new_check`.
pub fn read_code(result: Result<String, text_io::Error>, configuration: &ConfigType) -> (r: Result<
    CodeType,
    CodeTypeError,
>)
    requires
        result matches Ok(t) ==> configuration.columns > 0 || digits_of(t@).len() > 0,
    ensures
        result is Err ==> r == Err::<CodeType, CodeTypeError>(CodeTypeError::DecodingError),
        result matches Ok(t) ==> {
            let d = digits_of(t@);
            &&& d.len() != configuration.columns ==> r == Err::<CodeType, CodeTypeError>(
                CodeTypeError::ColumnMismatch,
            )
            &&& d.len() == configuration.columns && (exists|i: int|
                0 <= i < d.len() && d[i] >= configuration.colors) ==> r == Err::<
                CodeType,
                CodeTypeError,
            >(CodeTypeError::ColorMismatch)
            &&& r is Ok <==> (d.len() == configuration.columns && forall|i: int|
                0 <= i < d.len() ==> d[i] < configuration.colors)
            &&& r matches Ok(c) ==> c@ == d
        },
{
    match result {
        Ok(text) => {
            let results_num = digits_in(&text);
            CodeType::new_check(results_num, configuration)
        },
        Err(_) => Err(CodeTypeError::DecodingError),
    }
}

} // verus!
