//! The JSON texts that are stored: remembered filters, and which fields of a
//! reading a procedure shows.

use serde_json::{Map as JsonMap, Value as Json};
use vstd::prelude::*;
use vstd::string::*;

verus! {

/// The text under a key of a JSON object.
pub uninterp spec fn json_field(text: Seq<char>, key: Seq<char>) -> Option<Seq<char>>;

/// `serde_json::from_str`, and what `Value::get` and `Value::as_str` find in
/// its result: the text under the key, none where the text is no JSON, no
/// object, or has something else or nothing there. How JSON is read is left to
/// serde_json.
#[verifier::external_body]
pub(crate) fn text_field(text: &str, key: &str) -> (r: Option<String>)
    ensures
        crate::rows::opt_text(r) == json_field(text@, key@),
{
    let value: Json = serde_json::from_str(text).ok()?;
    value.get(key)?.as_str().map(|s| s.to_string())
}

/// The views of pairs of texts.
pub open spec fn pair_views(pairs: Seq<(String, String)>) -> Seq<(Seq<char>, Seq<char>)> {
    pairs.map_values(|p: (String, String)| (p.0@, p.1@))
}

/// The value of the last pair with a key.
pub open spec fn last_value(pairs: Seq<(Seq<char>, Seq<char>)>, key: Seq<char>) -> Option<Seq<char>>
    decreases pairs.len(),
{
    if pairs.len() == 0 {
        None
    } else if pairs.last().0 == key {
        Some(pairs.last().1)
    } else {
        last_value(pairs.drop_last(), key)
    }
}

/// Whether no key stands twice.
pub open spec fn each_key_once(pairs: Seq<(Seq<char>, Seq<char>)>) -> bool {
    forall|i: int, j: int|
        0 <= i < j < pairs.len() ==> (#[trigger] pairs[i]).0 != (#[trigger] pairs[j]).0
}

/// A JSON object of texts, written out.
pub uninterp spec fn json_object(pairs: Seq<(Seq<char>, Seq<char>)>) -> Seq<char>;

/// `Value::to_string` of an object with these texts in it: the same pairs are
/// always written the same way, and where no key stands twice every text reads
/// back from what is written. How it is written, and which text stays of two
/// under one key, is left to serde_json and to std's `BTreeMap`.
#[verifier::external_body]
pub(crate) fn object_text(pairs: &Vec<(String, String)>) -> (r: String)
    ensures
        r@ == json_object(pair_views(pairs@)),
        each_key_once(pair_views(pairs@)) ==> forall|key: Seq<char>| #[trigger]
            json_field(r@, key) == last_value(pair_views(pairs@), key),
{
    let entries = pairs.iter().map(|(k, v)| (k.clone(), Json::String(v.clone())));
    Json::Object(JsonMap::from_iter(entries)).to_string()
}

/// Whether a procedure shows a field of a reading, and whether it asks for it.
#[derive(Debug)]
pub struct FieldRule {
    pub name: String,
    pub visible: bool,
    pub required: bool,
}

pub open spec fn rule_views(rules: Seq<FieldRule>) -> Seq<(Seq<char>, bool, bool)> {
    rules.map_values(|r: FieldRule| (r.name@, r.visible, r.required))
}

/// A flag of an object within a JSON object.
pub uninterp spec fn json_flag(text: Seq<char>, field: Seq<char>, flag: Seq<char>) -> Option<bool>;

/// `serde_json::from_str`, and what `Value::get` of the field, `get` of the
/// flag in it and `Value::as_bool` find: none where any of it is missing or
/// something else.
#[verifier::external_body]
pub(crate) fn flag_of(text: &str, field: &str, flag: &str) -> (r: Option<bool>)
    ensures
        r == json_flag(text@, field@, flag@),
{
    let value: Json = serde_json::from_str(text).ok()?;
    value.get(field)?.get(flag)?.as_bool()
}

/// A JSON text as it is written out again after it was read.
pub uninterp spec fn json_again(text: Seq<char>) -> Option<Seq<char>>;

/// `serde_json::from_str` and `Value::to_string` of its result: none where the
/// text is no JSON.
#[verifier::external_body]
pub(crate) fn written_again(text: &str) -> (r: Option<String>)
    ensures
        crate::rows::opt_text(r) == json_again(text@),
{
    let value: Json = serde_json::from_str(text).ok()?;
    Some(value.to_string())
}

/// The last rule for a field.
pub open spec fn last_rule(rules: Seq<(Seq<char>, bool, bool)>, field: Seq<char>) -> Option<
    (bool, bool),
>
    decreases rules.len(),
{
    if rules.len() == 0 {
        None
    } else if rules.last().0 == field {
        Some((rules.last().1, rules.last().2))
    } else {
        last_rule(rules.drop_last(), field)
    }
}

/// Whether no field has two rules.
pub open spec fn each_rule_once(rules: Seq<(Seq<char>, bool, bool)>) -> bool {
    forall|i: int, j: int|
        0 <= i < j < rules.len() ==> (#[trigger] rules[i]).0 != (#[trigger] rules[j]).0
}

/// A JSON object that holds for each rule an object with its two flags under
/// these names, written out.
pub uninterp spec fn json_flags(
    rules: Seq<(Seq<char>, bool, bool)>,
    shown: Seq<char>,
    asked: Seq<char>,
) -> Seq<char>;

/// `Value::to_string` of an object that holds for each rule an object with its
/// two flags under two names: the same rules are always written the same way,
/// what is written is written the same way again, and where no field has two
/// rules the flags read back from it. Which of two rules for one field stays is
/// left to std's `BTreeMap`.
#[verifier::external_body]
fn flags_text(rules: &Vec<FieldRule>, shown: &str, asked: &str) -> (r: String)
    requires
        shown@ != asked@,
    ensures
        r@ == json_flags(rule_views(rules@), shown@, asked@),
        json_again(r@) == Some(r@),
        each_rule_once(rule_views(rules@)) ==> forall|field: Seq<char>| #[trigger]
            json_flag(r@, field, shown@) == (match last_rule(rule_views(rules@), field) {
                Some((visible, _)) => Some(visible),
                None => None,
            }),
        each_rule_once(rule_views(rules@)) ==> forall|field: Seq<char>| #[trigger]
            json_flag(r@, field, asked@) == (match last_rule(rule_views(rules@), field) {
                Some((_, required)) => Some(required),
                None => None,
            }),
{
    let entries = rules.iter().map(|r| {
        let visible = (shown.to_string(), Json::Bool(r.visible));
        let required = (asked.to_string(), Json::Bool(r.required));
        (r.name.clone(), Json::Object(JsonMap::from_iter([visible, required])))
    });
    Json::Object(JsonMap::from_iter(entries)).to_string()
}

/// Rules for fields, written out as a JSON object of objects.
pub open spec fn json_rules(rules: Seq<(Seq<char>, bool, bool)>) -> Seq<char> {
    json_flags(rules, "visible"@, "required"@)
}

/// Writes rules out; where no field has two of them they read back from what is
/// written.
pub fn rules_text(rules: &Vec<FieldRule>) -> (r: String)
    ensures
        r@ == json_rules(rule_views(rules@)),
        json_again(r@) == Some(r@),
        each_rule_once(rule_views(rules@)) ==> forall|field: Seq<char>| #[trigger]
            json_flag(r@, field, "visible"@) == (match last_rule(rule_views(rules@), field) {
                Some((visible, _)) => Some(visible),
                None => None,
            }),
        each_rule_once(rule_views(rules@)) ==> forall|field: Seq<char>| #[trigger]
            json_flag(r@, field, "required"@) == (match last_rule(rule_views(rules@), field) {
                Some((_, required)) => Some(required),
                None => None,
            }),
{
    proof {
        reveal_strlit("visible");
        reveal_strlit("required");
        assert("visible"@.len() != "required"@.len());
    }
    flags_text(rules, "visible", "required")
}

fn rule(name: &str) -> (r: FieldRule)
    ensures
        r.name@ == name@,
        r.visible,
        !r.required,
{
    FieldRule { name: name.to_string(), visible: true, required: false }
}

/// Which fields a kind of procedure has where nothing else was said: all of
/// them shown, none asked for.
pub open spec fn default_rules(kind: Seq<char>) -> Seq<(Seq<char>, bool, bool)> {
    if kind == "charged"@ {
        seq![("charge_ma"@, true, false), ("discharge_ma"@, true, false), ("notes"@, true, false)]
    } else if kind == "analysed"@ {
        seq![
            ("capacity_mah"@, true, false),
            ("ir_mohm"@, true, false),
            ("discharge_ma"@, true, false),
            ("charge_ma"@, true, false),
            ("notes"@, true, false),
        ]
    } else {
        Seq::empty()
    }
}

pub fn default_fields(kind: &str) -> (r: Vec<FieldRule>)
    ensures
        rule_views(r@) == default_rules(kind@),
        each_rule_once(rule_views(r@)),
{
    let mut out: Vec<FieldRule> = Vec::new();
    if crate::text::same(kind, "charged") {
        out.push(rule("charge_ma"));
        out.push(rule("discharge_ma"));
        out.push(rule("notes"));
    } else if crate::text::same(kind, "analysed") {
        out.push(rule("capacity_mah"));
        out.push(rule("ir_mohm"));
        out.push(rule("discharge_ma"));
        out.push(rule("charge_ma"));
        out.push(rule("notes"));
    }
    assert(rule_views(out@) =~= default_rules(kind@));
    proof {
        reveal_strlit("charge_ma");
        reveal_strlit("discharge_ma");
        reveal_strlit("capacity_mah");
        reveal_strlit("ir_mohm");
        reveal_strlit("notes");
        assert("charge_ma"@.len() == 9 && "ir_mohm"@.len() == 7 && "notes"@.len() == 5);
        assert("discharge_ma"@.len() == 12 && "capacity_mah"@.len() == 12);
        assert("discharge_ma"@[0] == 'd' && "capacity_mah"@[0] == 'c');
        assert(each_rule_once(default_rules(kind@)));
    }
    out
}

} // verus!
