//! Typed values: a closed set of primitive variants, each with a default
//! and a textual parse/assign operation that replaces the payload without
//! ever changing the tag.

use vstd::prelude::*;
use vstd::string::StrSliceExecFns;
use crate::text::{
    char_text, dec_text, digit_str, int_text, is_float_literal, is_float_literal_text, parse_i32,
    parse_i32_text, parse_u32, parse_u32_text, render_dec, str_eq,
};

verus! {

/// The tag of a typed value.
#[derive(Copy, Clone, Debug, PartialEq, Eq, Structural)]
pub enum DataType {
    F32,
    I32,
    U32,
    Char,
    Bool,
    OwnedString,
}

/// The error of a failed text-to-value assignment; the value keeps its
/// prior payload.
#[derive(Copy, Clone, Debug, PartialEq, Eq, Structural)]
pub struct ParseError;

/// A typed value. The float variant keeps its payload in textual form:
/// assignment validates the literal against the float grammar and stores
/// it verbatim, so its display is the accepted literal itself.
#[derive(Clone, Debug, PartialEq)]
pub enum DataValue {
    F32(String),
    I32(i32),
    U32(u32),
    Char(char),
    Bool(bool),
    OwnedString(String),
}

/// The mathematical shape of a typed value.
pub enum ValueModel {
    F32(Seq<char>),
    I32(i32),
    U32(u32),
    Char(char),
    Bool(bool),
    Text(Seq<char>),
}

impl View for DataValue {
    type V = ValueModel;

    open spec fn view(&self) -> ValueModel {
        match self {
            DataValue::F32(t) => ValueModel::F32(t@),
            DataValue::I32(v) => ValueModel::I32(*v),
            DataValue::U32(v) => ValueModel::U32(*v),
            DataValue::Char(c) => ValueModel::Char(*c),
            DataValue::Bool(b) => ValueModel::Bool(*b),
            DataValue::OwnedString(t) => ValueModel::Text(t@),
        }
    }
}

/// The tag of a value.
pub open spec fn tag_of(m: ValueModel) -> DataType {
    match m {
        ValueModel::F32(_) => DataType::F32,
        ValueModel::I32(_) => DataType::I32,
        ValueModel::U32(_) => DataType::U32,
        ValueModel::Char(_) => DataType::Char,
        ValueModel::Bool(_) => DataType::Bool,
        ValueModel::Text(_) => DataType::OwnedString,
    }
}

/// The zero or empty value of each tag.
pub open spec fn default_model(t: DataType) -> ValueModel {
    match t {
        DataType::F32 => ValueModel::F32(seq!['0']),
        DataType::I32 => ValueModel::I32(0i32),
        DataType::U32 => ValueModel::U32(0u32),
        DataType::Char => ValueModel::Char('\0'),
        DataType::Bool => ValueModel::Bool(false),
        DataType::OwnedString => ValueModel::Text(Seq::empty()),
    }
}

/// The canonical display text of a value.
pub open spec fn display_model(m: ValueModel) -> Seq<char> {
    match m {
        ValueModel::F32(t) => t,
        ValueModel::I32(v) => int_text(v as int),
        ValueModel::U32(v) => dec_text(v as nat),
        ValueModel::Char(c) => seq![c],
        ValueModel::Bool(b) => if b {
            seq!['t', 'r', 'u', 'e']
        } else {
            seq!['f', 'a', 'l', 's', 'e']
        },
        ValueModel::Text(t) => t,
    }
}

/// What a text-to-value assignment produces on a value of tag `t`:
/// the parsed value, or nothing when the text does not fit the tag's
/// grammar.
pub open spec fn parse_model(t: DataType, s: Seq<char>) -> Option<ValueModel> {
    match t {
        DataType::F32 => if is_float_literal(s) {
            Some(ValueModel::F32(s))
        } else {
            None
        },
        DataType::I32 => match parse_i32(s) {
            Some(v) => Some(ValueModel::I32(v)),
            None => None,
        },
        DataType::U32 => match parse_u32(s) {
            Some(v) => Some(ValueModel::U32(v)),
            None => None,
        },
        DataType::Char => if s.len() == 1 {
            Some(ValueModel::Char(s[0]))
        } else {
            None
        },
        DataType::Bool => if s == seq!['t', 'r', 'u', 'e'] {
            Some(ValueModel::Bool(true))
        } else if s == seq!['f', 'a', 'l', 's', 'e'] {
            Some(ValueModel::Bool(false))
        } else {
            None
        },
        DataType::OwnedString => Some(ValueModel::Text(s)),
    }
}

/// A value whose payload its tag's grammar admits: a float payload must
/// be a literal the grammar accepted; every other payload is admissible
/// as it stands.
pub open spec fn value_valid(m: ValueModel) -> bool {
    match m {
        ValueModel::F32(t) => is_float_literal(t),
        _ => true,
    }
}

/// Each tag's default value is admissible.
pub proof fn lemma_default_valid(t: DataType)
    ensures
        value_valid(default_model(t)),
{
    if t is F32 {
        lemma_single_zero_is_float_literal();
    }
}

/// Whatever an assignment parses is admissible.
pub proof fn lemma_parse_valid(t: DataType, s: Seq<char>)
    ensures
        parse_model(t, s) matches Some(m) ==> value_valid(m),
{
}

/// Each tag's default value carries that tag.
pub proof fn lemma_default_tag(t: DataType)
    ensures
        tag_of(default_model(t)) == t,
{
}

/// A successful assignment keeps the tag of the value it replaces.
pub proof fn lemma_parse_keeps_tag(t: DataType, s: Seq<char>)
    ensures
        parse_model(t, s) matches Some(m) ==> tag_of(m) == t,
{
}

impl DataType {
    /// The default value of this tag: its zero or empty state.
    pub fn to_default_value(&self) -> (r: DataValue)
        ensures
            r@ == default_model(*self),
            tag_of(r@) == *self,
    {
        match self {
            DataType::F32 => DataValue::F32(digit_str(0).to_owned()),
            DataType::I32 => DataValue::I32(0),
            DataType::U32 => DataValue::U32(0),
            DataType::Char => DataValue::Char('\0'),
            DataType::Bool => DataValue::Bool(false),
            DataType::OwnedString => {
                let t = String::new();
                proof {
                    assert(t@ =~= Seq::<char>::empty());
                }
                DataValue::OwnedString(t)
            },
        }
    }
}

impl DataValue {
    /// The canonical display text of this value.
    pub fn display(&self) -> (r: String)
        ensures
            r@ == display_model(self@),
    {
        match self {
            DataValue::F32(t) => t.clone(),
            DataValue::I32(v) => {
                if *v >= 0 {
                    render_dec(*v as u32)
                } else {
                    let m: u32 = (0i64 - (*v as i64)) as u32;
                    let mut r = minus_str().to_owned();
                    r.append(render_dec(m).as_str());
                    proof {
                        assert(r@ =~= int_text(*v as int));
                    }
                    r
                }
            },
            DataValue::U32(v) => render_dec(*v),
            DataValue::Char(c) => char_text(*c),
            DataValue::Bool(b) => {
                if *b {
                    proof {
                        reveal_strlit("true");
                        assert("true"@ =~= seq!['t', 'r', 'u', 'e']);
                    }
                    let r: &str = "true";
                    r.to_owned()
                } else {
                    proof {
                        reveal_strlit("false");
                        assert("false"@ =~= seq!['f', 'a', 'l', 's', 'e']);
                    }
                    let r: &str = "false";
                    r.to_owned()
                }
            },
            DataValue::OwnedString(t) => t.clone(),
        }
    }

    /// Parses `value` according to this value's tag and replaces the
    /// payload in place; fails with a `ParseError` and leaves the prior
    /// payload unchanged when the text does not fit the tag's grammar.
    /// The tag itself never changes.
    pub fn set_value(&mut self, value: &str) -> (r: Result<(), ParseError>)
        ensures
            match parse_model(tag_of(old(self)@), value@) {
                Some(m) => r is Ok && final(self)@ == m,
                None => r is Err && final(self)@ == old(self)@,
            },
            tag_of(final(self)@) == tag_of(old(self)@),
    {
        match self {
            DataValue::F32(t) => {
                if is_float_literal_text(value) {
                    *t = value.to_owned();
                    Ok(())
                } else {
                    Err(ParseError)
                }
            },
            DataValue::I32(v) => {
                match parse_i32_text(value) {
                    Some(x) => {
                        *v = x;
                        Ok(())
                    },
                    None => Err(ParseError),
                }
            },
            DataValue::U32(v) => {
                match parse_u32_text(value) {
                    Some(x) => {
                        *v = x;
                        Ok(())
                    },
                    None => Err(ParseError),
                }
            },
            DataValue::Char(c) => {
                if value.unicode_len() == 1 {
                    *c = value.get_char(0);
                    Ok(())
                } else {
                    Err(ParseError)
                }
            },
            DataValue::Bool(b) => {
                proof {
                    reveal_strlit("true");
                    reveal_strlit("false");
                    assert("true"@ =~= seq!['t', 'r', 'u', 'e']);
                    assert("false"@ =~= seq!['f', 'a', 'l', 's', 'e']);
                }
                if str_eq(value, "true") {
                    *b = true;
                    Ok(())
                } else if str_eq(value, "false") {
                    *b = false;
                    Ok(())
                } else {
                    Err(ParseError)
                }
            },
            DataValue::OwnedString(t) => {
                *t = value.to_owned();
                Ok(())
            },
        }
    }
}

/// The one-character string for the minus sign.
fn minus_str() -> (r: &'static str)
    ensures
        r@ == seq!['-'],
{
    proof {
        reveal_strlit("-");
        assert("-"@ =~= seq!['-']);
    }
    "-"
}

/// Law: for every tag except the text tag, the display of the tag's
/// default value assigns back successfully and reproduces the default, so
/// a second display gives the same text again.
pub proof fn lemma_default_display_round_trip(t: DataType)
    requires
        t != DataType::OwnedString,
    ensures
        parse_model(t, display_model(default_model(t))) == Some(default_model(t)),
{
    match t {
        DataType::F32 => {
            lemma_single_zero_is_float_literal();
        },
        DataType::I32 => {
            lemma_dec_text_zero();
            let s = seq!['0'];
            assert(s.subrange(0, 1) =~= s);
            lemma_dec_val_zero();
        },
        DataType::U32 => {
            lemma_dec_text_zero();
            let s = seq!['0'];
            assert(s.subrange(0, 1) =~= s);
            lemma_dec_val_zero();
        },
        DataType::Char => {
        },
        DataType::Bool => {
            let f = seq!['f', 'a', 'l', 's', 'e'];
            let tr = seq!['t', 'r', 'u', 'e'];
            assert(f.len() != tr.len());
            assert(f != tr);
        },
        DataType::OwnedString => {
        },
    }
}

/// Law: display is the inverse of assignment — for every value of an
/// integer, character or boolean tag, assigning the value's own display
/// text succeeds and reproduces the value exactly.
pub proof fn lemma_display_round_trip(m: ValueModel)
    requires
        tag_of(m) == DataType::I32 || tag_of(m) == DataType::U32 || tag_of(m) == DataType::Char
            || tag_of(m) == DataType::Bool,
    ensures
        parse_model(tag_of(m), display_model(m)) == Some(m),
{
    match m {
        ValueModel::U32(v) => {
            crate::text::lemma_dec_text_digits(v as nat);
            crate::text::lemma_dec_text_value(v as nat);
            let s = crate::text::dec_text(v as nat);
            assert(crate::text::is_dec_digit(s[0]));
            assert(s[0] != '+');
        },
        ValueModel::I32(v) => {
            if v >= 0 {
                crate::text::lemma_dec_text_digits(v as nat);
                crate::text::lemma_dec_text_value(v as nat);
                let s = crate::text::dec_text(v as nat);
                assert(crate::text::is_dec_digit(s[0]));
                assert(s[0] != '+' && s[0] != '-');
            } else {
                let p = crate::text::dec_text((0 - v as int) as nat);
                crate::text::lemma_dec_text_digits((0 - v as int) as nat);
                crate::text::lemma_dec_text_value((0 - v as int) as nat);
                let s = seq!['-'] + p;
                assert(display_model(m) == s);
                assert(s[0] == '-');
                assert(s.subrange(1, s.len() as int) =~= p);
            }
        },
        ValueModel::Char(c) => {
        },
        ValueModel::Bool(b) => {
            let f = seq!['f', 'a', 'l', 's', 'e'];
            let tr = seq!['t', 'r', 'u', 'e'];
            assert(f.len() != tr.len());
            assert(f != tr);
        },
        _ => {
        },
    }
}

/// Law: for the float tag the same inverse holds on every payload the
/// store can create, since a float payload is always a literal that the
/// grammar accepted.
pub proof fn lemma_float_display_round_trip(t: Seq<char>)
    requires
        is_float_literal(t),
    ensures
        parse_model(DataType::F32, display_model(ValueModel::F32(t))) == Some(ValueModel::F32(t)),
{
}

/// The display of zero is the single digit zero.
proof fn lemma_dec_text_zero()
    ensures
        dec_text(0) == seq!['0'],
{
    assert(dec_text(0) =~= seq!['0']);
}

/// The value of the single digit zero.
proof fn lemma_dec_val_zero()
    ensures
        crate::text::dec_val(seq!['0']) == 0,
{
    let s = seq!['0'];
    assert(s.drop_last() =~= Seq::<char>::empty());
    assert(crate::text::dec_val(s) == crate::text::dec_val(s.drop_last()) * 10
        + crate::text::digit_val('0'));
}

/// The single digit zero is a float literal.
proof fn lemma_single_zero_is_float_literal()
    ensures
        is_float_literal(seq!['0']),
{
    let s = seq!['0'];
    assert(crate::text::digit_run_end(s, 1) == 1);
    assert(crate::text::digit_run_end(s, 0) == 1);
}

} // verus!
