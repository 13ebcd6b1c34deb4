//! The parameters of a request.

use crate::number::Double;
use crate::scan::candidate::ValueType;
use crate::text;
use crate::text::{begins, parse_number, part, same_text, to_chars};
use serde_json::Value;
use vstd::prelude::*;

verus! {

/// A JSON number, as the kinds of number that it can be read as.
#[derive(Clone, Copy, Debug)]
pub struct Number {
    /// As an integer that is not negative.
    pub unsigned: Option<u64>,
    /// As an integer.
    pub signed: Option<i64>,
    /// In double precision.
    pub real: Option<Double>,
}

/// A parameter.
#[derive(Clone, Debug)]
pub enum Param {
    /// Null.
    Null,
    /// A truth value.
    Flag(bool),
    /// A number.
    Number(Number),
    /// A text.
    Text(String),
    /// A list.
    List,
    /// An object: the name of each member, and whether it is null.
    Members(Vec<(String, bool)>),
}

/// A [`Param`] as a mathematical value.
pub enum ParamView {
    /// Null.
    Null,
    /// A truth value.
    Flag(bool),
    /// A number.
    Number(Number),
    /// A text.
    Text(Seq<char>),
    /// A list.
    List,
    /// An object: the name of each member, and whether it is null.
    Members(Seq<(Seq<char>, bool)>),
}

impl View for Param {
    type V = ParamView;

    open spec fn view(&self) -> ParamView {
        match self {
            Param::Null => ParamView::Null,
            Param::Flag(b) => ParamView::Flag(*b),
            Param::Number(n) => ParamView::Number(*n),
            Param::Text(s) => ParamView::Text(s@),
            Param::List => ParamView::List,
            Param::Members(m) => ParamView::Members(
                Seq::new(m@.len(), |i: int| (m@[i].0@, m@[i].1)),
            ),
        }
    }
}

/// The mathematical values of a list of parameters.
pub open spec fn param_views(v: Seq<(String, Param)>) -> Seq<(Seq<char>, ParamView)> {
    Seq::new(v.len(), |i: int| (v[i].0@, v[i].1@))
}

/// The members of a JSON object, by name; none where the value is no object.
pub uninterp spec fn members(v: Value) -> Map<Seq<char>, ParamView>;

/// Each member stands in the list once.
pub open spec fn lists_members(
    list: Seq<(Seq<char>, ParamView)>,
    members: Map<Seq<char>, ParamView>,
) -> bool {
    &&& forall|i: int|
        0 <= i < list.len() ==> members.contains_key((#[trigger] list[i]).0) && members[list[i].0]
            == list[i].1
    &&& forall|i: int, j: int|
        0 <= i < j < list.len() ==> (#[trigger] list[i]).0 != (#[trigger] list[j]).0
    &&& forall|name: Seq<char>| #[trigger]
        members.contains_key(name) ==> exists|i: int|
            0 <= i < list.len() && (#[trigger] list[i]).0 == name
}

/// `Value::as_object` gives the members of an object, each name once; a value of another kind
/// has none. A number is read by `Number::as_u64`, `as_i64` and `as_f64`.
#[verifier::external_body]
pub(crate) fn read_members(v: &Value) -> (r: Vec<(String, Param)>)
    ensures
        lists_members(param_views(r@), members(*v)),
{
    v.as_object().into_iter().flatten().map(|(k, v)| (k.clone(), match v {
        Value::Null => Param::Null,
        Value::Bool(b) => Param::Flag(*b),
        Value::Number(n) => Param::Number(Number {
            unsigned: n.as_u64(),
            signed: n.as_i64(),
            real: n.as_f64().map(|x| Double::from_bits(x.to_bits())),
        }),
        Value::String(s) => Param::Text(s.clone()),
        Value::Array(_) => Param::List,
        Value::Object(m) => Param::Members(m.iter().map(|(k, v)| (k.clone(), v.is_null())).collect()),
    })).collect()
}

// ─── Looking one up ─────────────────────────────────────────────────────────

/// Parameters, each with its name.
pub type Params = Seq<(Seq<char>, ParamView)>;

/// The first parameter of a name, where there is one.
pub open spec fn param(params: Params, name: Seq<char>) -> Option<ParamView>
    decreases params.len(),
{
    if params.len() == 0 {
        None
    } else if params[0].0 == name {
        Some(params[0].1)
    } else {
        param(params.drop_first(), name)
    }
}

proof fn lemma_param(params: Params, name: Seq<char>, k: int)
    requires
        0 <= k <= params.len(),
        forall|j: int| 0 <= j < k ==> (#[trigger] params[j]).0 != name,
        k < params.len() ==> params[k].0 == name,
    ensures
        param(params, name) == if k < params.len() {
            Some(params[k].1)
        } else {
            None
        },
    decreases params.len(),
{
    if k > 0 {
        let rest = params.drop_first();
        assert forall|j: int| 0 <= j < k - 1 implies (#[trigger] rest[j]).0 != name by {
            assert(rest[j] == params[j + 1]);
        }
        lemma_param(rest, name, k - 1);
    }
}

/// In which order the members of an object are listed makes no difference: a parameter is the
/// member of its name.
pub proof fn parameters_are_members(list: Params, members: Map<Seq<char>, ParamView>, name: Seq<char>)
    requires
        lists_members(list, members),
    ensures
        param(list, name) == if members.contains_key(name) {
            Some(members[name])
        } else {
            None
        },
{
    if members.contains_key(name) {
        let k = choose|k: int| 0 <= k < list.len() && (#[trigger] list[k]).0 == name;
        assert forall|j: int| 0 <= j < k implies (#[trigger] list[j]).0 != name by {
            assert(list[j].0 != list[k].0);
        }
        lemma_param(list, name, k);
    } else {
        assert forall|j: int| 0 <= j < list.len() implies (#[trigger] list[j]).0 != name by {
            assert(members.contains_key(list[j].0));
        }
        lemma_param(list, name, list.len() as int);
    }
}

/// A parameter that is an integer and not negative.
pub open spec fn whole(params: Params, name: Seq<char>) -> Option<u64> {
    match param(params, name) {
        Some(ParamView::Number(n)) => n.unsigned,
        _ => None,
    }
}

/// A parameter that is an integer.
pub open spec fn integer(params: Params, name: Seq<char>) -> Option<i64> {
    match param(params, name) {
        Some(ParamView::Number(n)) => n.signed,
        _ => None,
    }
}

/// A parameter that is a number.
pub open spec fn quantity(params: Params, name: Seq<char>) -> Option<Double> {
    match param(params, name) {
        Some(ParamView::Number(n)) => n.real,
        _ => None,
    }
}

/// A parameter that is a text.
pub open spec fn words(params: Params, name: Seq<char>) -> Option<Seq<char>> {
    match param(params, name) {
        Some(ParamView::Text(s)) => Some(s),
        _ => None,
    }
}

/// A parameter that is a truth value and true.
pub open spec fn flagged(params: Params, name: Seq<char>) -> bool {
    param(params, name) == Some(ParamView::Flag(true))
}

/// A parameter as a process identifier, of which it has the lower 32 bits.
pub open spec fn process(params: Params) -> Option<u32> {
    match whole(params, "pid"@) {
        Some(n) => Some((n % 0x1_0000_0000) as u32),
        None => None,
    }
}

/// The address that a text spells in hexadecimal, with `0x` or `0X` before it or without.
pub open spec fn address_in(s: Seq<char>) -> Option<u64> {
    let digits = if "0x"@.is_prefix_of(s) || "0X"@.is_prefix_of(s) {
        s.skip(2)
    } else {
        s
    };
    match text::number(digits, 16, u64::MAX as nat) {
        Ok(n) => Some(n as u64),
        Err(_) => None,
    }
}

/// A parameter as an address.
pub open spec fn address_of(p: Option<ParamView>) -> Option<u64> {
    match p {
        Some(ParamView::Text(s)) => address_in(s),
        _ => None,
    }
}

/// The type of a name.
pub open spec fn type_named(s: Seq<char>) -> Option<ValueType> {
    if s == "i32"@ {
        Some(ValueType::I32)
    } else if s == "u32"@ {
        Some(ValueType::U32)
    } else if s == "f32"@ {
        Some(ValueType::F32)
    } else if s == "i64"@ {
        Some(ValueType::I64)
    } else if s == "u64"@ {
        Some(ValueType::U64)
    } else if s == "f64"@ {
        Some(ValueType::F64)
    } else if s == "auto"@ {
        Some(ValueType::Auto)
    } else {
        None
    }
}

/// A parameter as a type: its name, or an object whose one member has that name and is null.
pub open spec fn type_of(p: Option<ParamView>) -> Option<ValueType> {
    match p {
        Some(ParamView::Text(s)) => type_named(s),
        Some(ParamView::Members(m)) => if m.len() == 1 && m[0].1 {
            type_named(m[0].0)
        } else {
            None
        },
        _ => None,
    }
}

/// The first parameter of a name, where there is one.
pub fn find_param<'a>(list: &'a Vec<(String, Param)>, name: &str) -> (r: Option<&'a Param>)
    ensures
        match r {
            Some(p) => param(param_views(list@), name@) == Some(p@),
            None => param(param_views(list@), name@) is None,
        },
{
    let ghost views = param_views(list@);
    let mut i: usize = 0;
    while i < list.len()
        invariant
            i <= list@.len(),
            views == param_views(list@),
            forall|k: int| 0 <= k < i ==> (#[trigger] views[k]).0 != name@,
        decreases list@.len() - i,
    {
        assert(views[i as int] == (list@[i as int].0@, list@[i as int].1@));
        if same_text(list[i].0.as_str(), name) {
            proof {
                lemma_param(views, name@, i as int);
            }
            return Some(&list[i].1);
        }
        i += 1;
    }
    proof {
        lemma_param(views, name@, list@.len() as int);
    }
    None
}

/// A parameter that is an integer and not negative.
pub fn get_whole(list: &Vec<(String, Param)>, name: &str) -> (r: Option<u64>)
    ensures
        r == whole(param_views(list@), name@),
{
    match find_param(list, name) {
        Some(Param::Number(n)) => n.unsigned,
        _ => None,
    }
}

/// A parameter that is an integer.
pub fn get_integer(list: &Vec<(String, Param)>, name: &str) -> (r: Option<i64>)
    ensures
        r == integer(param_views(list@), name@),
{
    match find_param(list, name) {
        Some(Param::Number(n)) => n.signed,
        _ => None,
    }
}

/// A parameter that is a number.
pub fn get_quantity(list: &Vec<(String, Param)>, name: &str) -> (r: Option<Double>)
    ensures
        r == quantity(param_views(list@), name@),
{
    match find_param(list, name) {
        Some(Param::Number(n)) => n.real,
        _ => None,
    }
}

/// A parameter that is a text.
pub fn get_words<'a>(list: &'a Vec<(String, Param)>, name: &str) -> (r: Option<&'a String>)
    ensures
        match r {
            Some(s) => words(param_views(list@), name@) == Some(s@),
            None => words(param_views(list@), name@) is None,
        },
{
    match find_param(list, name) {
        Some(Param::Text(s)) => Some(s),
        _ => None,
    }
}

/// Whether a parameter is a truth value and true.
pub fn get_flagged(list: &Vec<(String, Param)>, name: &str) -> (r: bool)
    ensures
        r == flagged(param_views(list@), name@),
{
    match find_param(list, name) {
        Some(Param::Flag(b)) => *b,
        _ => false,
    }
}

/// The process identifier among the parameters.
pub fn get_process(list: &Vec<(String, Param)>) -> (r: Option<u32>)
    ensures
        r == process(param_views(list@)),
{
    match get_whole(list, "pid") {
        Some(n) => Some((n % 0x1_0000_0000) as u32),
        None => None,
    }
}

/// A parameter as an address like `0x7f2012340000` or `7f2012340000`.
pub fn parse_hex_address(value: Option<&Param>) -> (r: Option<u64>)
    ensures
        r == address_of(
            match value {
                Some(p) => Some(p@),
                None => None,
            },
        ),
{
    let s = match value {
        Some(Param::Text(s)) => to_chars(s.as_str()),
        _ => return None,
    };
    proof {
        reveal_strlit("0x");
        reveal_strlit("0X");
    }
    let digits = if begins(s.as_slice(), "0x") || begins(s.as_slice(), "0X") {
        let rest = part(s.as_slice(), 2, s.len());
        assert(rest@ =~= s@.skip(2));
        rest
    } else {
        s
    };
    match parse_number(digits.as_slice(), 16, u64::MAX) {
        Ok(n) => Some(n),
        Err(_) => None,
    }
}

/// A parameter as an address.
pub fn get_address(list: &Vec<(String, Param)>, name: &str) -> (r: Option<u64>)
    ensures
        r == address_of(param(param_views(list@), name@)),
{
    parse_hex_address(find_param(list, name))
}

fn find_type(s: &str) -> (r: Option<ValueType>)
    ensures
        r == type_named(s@),
{
    if same_text(s, "i32") {
        Some(ValueType::I32)
    } else if same_text(s, "u32") {
        Some(ValueType::U32)
    } else if same_text(s, "f32") {
        Some(ValueType::F32)
    } else if same_text(s, "i64") {
        Some(ValueType::I64)
    } else if same_text(s, "u64") {
        Some(ValueType::U64)
    } else if same_text(s, "f64") {
        Some(ValueType::F64)
    } else if same_text(s, "auto") {
        Some(ValueType::Auto)
    } else {
        None
    }
}

/// The type among the parameters.
pub fn get_type(list: &Vec<(String, Param)>) -> (r: Option<ValueType>)
    ensures
        r == type_of(param(param_views(list@), "dtype"@)),
{
    match find_param(list, "dtype") {
        Some(Param::Text(s)) => find_type(s.as_str()),
        Some(Param::Members(m)) => {
            if m.len() == 1 && m[0].1 {
                find_type(m[0].0.as_str())
            } else {
                None
            }
        },
        _ => None,
    }
}

/// The name of a type is read as that type.
pub proof fn type_names_are_read(t: ValueType)
    ensures
        type_named(t.name()) == Some(t),
{
    reveal_strlit("i32");
    reveal_strlit("u32");
    reveal_strlit("f32");
    reveal_strlit("i64");
    reveal_strlit("u64");
    reveal_strlit("f64");
    reveal_strlit("auto");
    assert("i32"@[0] == 'i' && "i32"@[1] == '3');
    assert("u32"@[0] == 'u' && "u32"@[1] == '3');
    assert("f32"@[0] == 'f' && "f32"@[1] == '3');
    assert("i64"@[0] == 'i' && "i64"@[1] == '6');
    assert("u64"@[0] == 'u' && "u64"@[1] == '6');
    assert("f64"@[0] == 'f' && "f64"@[1] == '6');
    assert("auto"@[0] == 'a');
}

/// An address as it stands in a reply can be handed in with a request.
pub proof fn addresses_are_read_back(n: u64)
    ensures
        address_in(text::address(n)) == Some(n),
{
    reveal_strlit("0x");
    text::numerals_are_read_back(n as nat, 16, u64::MAX as nat);
    let s = text::address(n);
    assert("0x"@.is_prefix_of(s)) by {
        assert(s.take(2) =~= "0x"@);
    }
    assert(s.skip(2) =~= text::numeral(n as nat, 16));
}

/// A type answers to its own name and to no other.
pub proof fn types_go_by_their_names(s: Seq<char>)
    ensures
        type_named(s) == Some(ValueType::I32) <==> s == "i32"@,
        type_named(s) == Some(ValueType::U32) <==> s == "u32"@,
        type_named(s) == Some(ValueType::F32) <==> s == "f32"@,
        type_named(s) == Some(ValueType::I64) <==> s == "i64"@,
        type_named(s) == Some(ValueType::U64) <==> s == "u64"@,
        type_named(s) == Some(ValueType::F64) <==> s == "f64"@,
        type_named(s) == Some(ValueType::Auto) <==> s == "auto"@,
{
    type_names_are_read(ValueType::I32);
    type_names_are_read(ValueType::U32);
    type_names_are_read(ValueType::F32);
    type_names_are_read(ValueType::I64);
    type_names_are_read(ValueType::U64);
    type_names_are_read(ValueType::F64);
    type_names_are_read(ValueType::Auto);
}

/// A process is named by the lower 32 bits of the number, so by the number itself where it fits.
pub proof fn processes_are_named_by_number(params: Params)
    ensures
        process(params) is Some <==> whole(params, "pid"@) is Some,
        whole(params, "pid"@) is Some && whole(params, "pid"@)->0 <= u32::MAX ==> process(params)
            == Some(whole(params, "pid"@)->0 as u32),
{
}

/// Among hexadecimal digits there is no `x`.
pub proof fn lemma_no_prefix_in_digits(n: nat)
    ensures
        forall|i: int|
            0 <= i < text::numeral(n, 16).len() ==> (#[trigger] text::numeral(n, 16)[i]) != 'x'
                && text::numeral(n, 16)[i] != 'X',
    decreases n,
{
    let s = text::numeral(n, 16);
    if n >= 16 {
        let rest = text::numeral(n / 16, 16);
        lemma_no_prefix_in_digits(n / 16);
        assert(s == rest.push(text::digit((n % 16) as int)));
        assert forall|i: int| 0 <= i < s.len() implies (#[trigger] s[i]) != 'x' && s[i]
            != 'X' by {
            if i < rest.len() {
                assert(s[i] == rest[i]);
            }
        }
    }
}

/// Hexadecimal digits are an address with `0x` or `0X` before them and without.
pub proof fn addresses_need_no_prefix(n: u64)
    ensures
        address_in(text::numeral(n as nat, 16)) == Some(n),
        address_in("0x"@ + text::numeral(n as nat, 16)) == Some(n),
        address_in("0X"@ + text::numeral(n as nat, 16)) == Some(n),
{
    reveal_strlit("0x");
    reveal_strlit("0X");
    let digits = text::numeral(n as nat, 16);
    text::numerals_are_read_back(n as nat, 16, u64::MAX as nat);
    lemma_no_prefix_in_digits(n as nat);
    assert(!"0x"@.is_prefix_of(digits)) by {
        if "0x"@.is_prefix_of(digits) {
            assert(digits[1] == "0x"@[1]);
        }
    }
    assert(!"0X"@.is_prefix_of(digits)) by {
        if "0X"@.is_prefix_of(digits) {
            assert(digits[1] == "0X"@[1]);
        }
    }
    let a = "0x"@ + digits;
    assert(a.take(2) =~= "0x"@);
    assert("0x"@.is_prefix_of(a));
    assert(a.skip(2) =~= digits);
    let b = "0X"@ + digits;
    assert(b.take(2) =~= "0X"@);
    assert("0X"@.is_prefix_of(b));
    assert(b.skip(2) =~= digits);
}

} // verus!
