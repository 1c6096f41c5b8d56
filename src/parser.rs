//! The value grammar over a [`Cursor`], and the entry point. Each production
//! is proved to compute exactly its counterpart in `grammar`.
use vstd::prelude::*;
use crate::cursor::{outcome, step_outcome, Cursor};
use crate::grammar::{
    array_result, bool_result, budget, choice_failure, deeper, digit_value, digits_len, digits_value,
    document_result, elements_result, entries_of, false_text, is_digit, key_index,
    lemma_digit_run_facts, literal_result, members_result, more_elements, more_members,
    null_text, number_result, object_result, pair_result, quoted_result, true_text,
    value_result, with_entry, ErrorKind, ParseError,
};
use crate::value::{entry_models, models_of, JsonValue, Num, NumModel, ValueModel};

verus! {

pub open spec fn text_result_model(r: Result<String, ParseError>) -> Result<Seq<char>, ParseError> {
    match r {
        Ok(t) => Ok(t@),
        Err(e) => Err(e),
    }
}

pub open spec fn num_result_model(r: Result<Num, ParseError>) -> Result<NumModel, ParseError> {
    match r {
        Ok(n) => Ok(n.model()),
        Err(e) => Err(e),
    }
}

pub open spec fn value_result_model(r: Result<JsonValue, ParseError>) -> Result<ValueModel, ParseError> {
    match r {
        Ok(v) => Ok(v.model()),
        Err(e) => Err(e),
    }
}

pub open spec fn items_result_model(r: Result<Vec<JsonValue>, ParseError>) -> Result<Seq<ValueModel>, ParseError> {
    match r {
        Ok(v) => Ok(models_of(v@)),
        Err(e) => Err(e),
    }
}

pub open spec fn entries_result_model(
    r: Result<Vec<(String, JsonValue)>, ParseError>,
) -> Result<Seq<(Seq<char>, ValueModel)>, ParseError> {
    match r {
        Ok(v) => Ok(entry_models(v@)),
        Err(e) => Err(e),
    }
}

pub open spec fn pair_result_model(r: Result<(String, JsonValue), ParseError>) -> Result<(Seq<char>, ValueModel), ParseError> {
    match r {
        Ok(kv) => Ok((kv.0@, kv.1.model())),
        Err(e) => Err(e),
    }
}

/// Of two alternative failures, the one detected further on.
pub fn deeper_error(a: ParseError, b: ParseError) -> (r: ParseError)
    ensures
        r == deeper(a, b),
{
    if b.pos > a.pos {
        b
    } else {
        a
    }
}

/// The single failure that a choice starting at `p` reports.
pub fn choice_error(e: ParseError, p: usize) -> (r: ParseError)
    ensures
        r == choice_failure(e, p as int),
{
    if e.pos == p {
        ParseError { kind: ErrorKind::EmptyAlternatives, pos: p }
    } else {
        e
    }
}

proof fn lemma_digits_value_step(s: Seq<char>, a: int, i: int)
    requires
        0 <= a <= i < s.len(),
    ensures
        digits_value(s.subrange(a, i + 1)) == digits_value(s.subrange(a, i)) * 10 + digit_value(s[i]),
{
    assert(s.subrange(a, i + 1).drop_last() =~= s.subrange(a, i));
}

/// `null`.
pub fn parse_null(c: &mut Cursor) -> (r: Result<(), ParseError>)
    requires
        old(c).wf(),
    ensures
        final(c).wf(),
        final(c).input() == old(c).input(),
        step_outcome(literal_result(old(c).input(), old(c).pos(), null_text()), r, old(c).pos(), final(c).pos()),
{
    proof {
        reveal_strlit("null");
        assert("null"@ =~= null_text());
    }
    c.literal("null")
}

/// `true` or `false`.
pub fn parse_bool(c: &mut Cursor) -> (r: Result<bool, ParseError>)
    requires
        old(c).wf(),
    ensures
        final(c).wf(),
        final(c).input() == old(c).input(),
        outcome(bool_result(old(c).input(), old(c).pos()), r, old(c).pos(), final(c).pos()),
{
    proof {
        reveal_strlit("true");
        reveal_strlit("false");
        assert("true"@ =~= true_text());
        assert("false"@ =~= false_text());
    }
    let p = c.position();
    match c.literal("true") {
        Ok(()) => Ok(true),
        Err(e1) => match c.literal("false") {
            Ok(()) => Ok(false),
            Err(e2) => Err(choice_error(deeper_error(e1, e2), p)),
        },
    }
}

/// `["-"] digit+ ["." digit+]`.
pub fn parse_num(c: &mut Cursor) -> (r: Result<Num, ParseError>)
    requires
        old(c).wf(),
    ensures
        final(c).wf(),
        final(c).input() == old(c).input(),
        outcome(number_result(old(c).input(), old(c).pos()), num_result_model(r), old(c).pos(), final(c).pos()),
{
    proof {
        reveal(number_result);
    }
    let ghost s = c.input();
    let start = c.position();
    let neg = match c.peek() {
        Some(ch) => ch == '-',
        None => false,
    };
    if neg {
        c.advance(1);
    }
    let a = c.position();
    let n = match c.digit_run() {
        Ok(n) => n,
        Err(e) => {
            c.rewind(start);
            return Err(e);
        },
    };
    let b = c.position();
    proof {
        lemma_digit_run_facts(s, a as int);
    }
    let dot = match c.peek() {
        Some(ch) => ch == '.',
        None => false,
    };
    if dot {
        c.advance(1);
        match c.digit_run() {
            Ok(_) => {
                let end = c.position();
                Ok(Num::Float(c.slice(start, end)))
            },
            Err(e) => {
                c.rewind(start);
                Err(e)
            },
        }
    } else {
        let mut acc: i64 = 0;
        let mut over = false;
        let mut i: usize = a;
        while i < b
            invariant
                c.wf(),
                c.input() == s,
                a <= i <= b,
                b as int == a + digits_len(s, a as int),
                b <= s.len(),
                forall|j: int| a <= j < b ==> #[trigger] is_digit(s[j]),
                acc >= 0,
                !over ==> acc == digits_value(s.subrange(a as int, i as int)),
                over ==> digits_value(s.subrange(a as int, i as int)) > i64::MAX,
            decreases b - i,
        {
            let ch = c.char_at(i);
            assert(is_digit(s[i as int]));
            let d = (ch as u32 - '0' as u32) as i64;
            assert(d as int == digit_value(s[i as int]));
            proof {
                lemma_digits_value_step(s, a as int, i as int);
            }
            let ghost v = digits_value(s.subrange(a as int, i as int));
            if over {
                assert(v * 10 + d >= v) by (nonlinear_arith)
                    requires
                        v > 0,
                        d >= 0,
                ;
            } else if acc > (i64::MAX - d) / 10 {
                assert(acc * 10 + d > i64::MAX) by (nonlinear_arith)
                    requires
                        acc > (i64::MAX - d) / 10,
                        0 <= d <= 9,
                ;
                over = true;
            } else {
                assert(acc * 10 + d <= i64::MAX) by (nonlinear_arith)
                    requires
                        acc <= (i64::MAX - d) / 10,
                        0 <= d <= 9,
                        acc >= 0,
                ;
                acc = acc * 10 + d;
            }
            i = i + 1;
        }
        assert(s.subrange(a as int, b as int) =~= s.subrange(a as int, a + n));
        if over {
            c.rewind(start);
            Err(ParseError { kind: ErrorKind::NumberOutOfRange, pos: a })
        } else if neg {
            Ok(Num::Int(-acc))
        } else {
            Ok(Num::Int(acc))
        }
    }
}

/// `"` text without quotes `"`.
pub fn parse_string(c: &mut Cursor) -> (r: Result<String, ParseError>)
    requires
        old(c).wf(),
    ensures
        final(c).wf(),
        final(c).input() == old(c).input(),
        outcome(quoted_result(old(c).input(), old(c).pos()), text_result_model(r), old(c).pos(), final(c).pos()),
{
    c.quoted_span()
}

/// Sets `k` to `v` in `entries`: in place where the key is present, else
/// appended at the end.
pub fn insert_entry(entries: &mut Vec<(String, JsonValue)>, k: String, v: JsonValue)
    ensures
        entry_models(final(entries)@) == with_entry(entry_models(old(entries)@), k@, v.model()),
{
    let ghost m = entry_models(entries@);
    assert(m.subrange(0, m.len() as int) =~= m);
    let mut i: usize = entries.len();
    while i > 0
        invariant
            i <= entries.len(),
            entries@ == old(entries)@,
            m == entry_models(entries@),
            m.len() == entries.len(),
            key_index(m, k@) == key_index(m.subrange(0, i as int), k@),
        decreases i,
    {
        assert(m.subrange(0, i as int).drop_last() =~= m.subrange(0, i as int - 1));
        if entries[i - 1].0 == k {
            assert(key_index(m, k@) == i - 1);
            let ghost km = k@;
            let ghost vm = v.model();
            entries.set(i - 1, (k, v));
            assert(entry_models(entries@) =~= m.update(i - 1, (km, vm)));
            return;
        }
        i = i - 1;
    }
    assert(m.subrange(0, 0) =~= Seq::<(Seq<char>, ValueModel)>::empty());
    let ghost km = k@;
    let ghost vm = v.model();
    entries.push((k, v));
    assert(entry_models(entries@) =~= m.push((km, vm)));
}

/// A value: `null`, a boolean, a number, a string, an array or an object,
/// tried in that order; the first that matches wins.
pub fn parse_value(c: &mut Cursor) -> (r: Result<JsonValue, ParseError>)
    requires
        old(c).wf(),
    ensures
        final(c).wf(),
        final(c).input() == old(c).input(),
        outcome(value_result(old(c).input(), old(c).pos()), value_result_model(r), old(c).pos(), final(c).pos()),
    decreases budget(old(c).input(), old(c).pos()), 3nat,
{
    let p = c.position();
    let mut err = match parse_null(c) {
        Ok(()) => return Ok(JsonValue::Null),
        Err(e) => e,
    };
    match parse_bool(c) {
        Ok(b) => return Ok(JsonValue::Bool(b)),
        Err(e) => err = deeper_error(err, e),
    }
    match parse_num(c) {
        Ok(n) => return Ok(JsonValue::Number(n)),
        Err(e) => err = deeper_error(err, e),
    }
    match parse_string(c) {
        Ok(t) => return Ok(JsonValue::String(t)),
        Err(e) => err = deeper_error(err, e),
    }
    match parse_array(c) {
        Ok(items) => {
            let v = JsonValue::Array(items);
            assert(v.model()->Array_0 =~= models_of(items@));
            return Ok(v);
        },
        Err(e) => err = deeper_error(err, e),
    }
    match parse_object(c) {
        Ok(entries) => {
            let v = JsonValue::Object(entries);
            assert(v.model()->Object_0 =~= entry_models(entries@));
            return Ok(v);
        },
        Err(e) => err = deeper_error(err, e),
    }
    Err(choice_error(err, p))
}

/// `[` values separated by `,` `]`, with whitespace around each delimiter.
pub fn parse_array(c: &mut Cursor) -> (r: Result<Vec<JsonValue>, ParseError>)
    requires
        old(c).wf(),
    ensures
        final(c).wf(),
        final(c).input() == old(c).input(),
        outcome(array_result(old(c).input(), old(c).pos()), items_result_model(r), old(c).pos(), final(c).pos()),
    decreases budget(old(c).input(), old(c).pos()), 2nat,
{
    let ghost s = c.input();
    let start = c.position();
    if let Err(e) = c.sep_with_space('[') {
        return Err(e);
    }
    let q = c.position();
    let mut items: Vec<JsonValue> = Vec::new();
    match parse_value(c) {
        Err(_) => {
            assert(elements_result(s, q as int) == (Seq::<ValueModel>::empty(), 0nat));
            assert(models_of(items@) =~= Seq::<ValueModel>::empty());
        },
        Ok(v) => {
            items.push(v);
            assert(models_of(items@) =~= seq![v.model()]);
            loop
                invariant
                    c.wf(),
                    c.input() == s,
                    old(c).input() == s,
                    old(c).pos() == start,
                    start < q <= c.pos(),
                    models_of(items@) + more_elements(s, c.pos()).0 == elements_result(s, q as int).0,
                    (c.pos() - q) + more_elements(s, c.pos()).1 == elements_result(s, q as int).1,
                ensures
                    c.wf(),
                    c.input() == s,
                    start < q <= c.pos(),
                    models_of(items@) == elements_result(s, q as int).0,
                    (c.pos() - q) == elements_result(s, q as int).1,
                decreases budget(s, c.pos()),
            {
                let e = c.position();
                if c.sep_with_space(',').is_err() {
                    assert(more_elements(s, c.pos()).0 =~= Seq::<ValueModel>::empty());
                    break;
                }
                match parse_value(c) {
                    Ok(v) => {
                        let ghost before = models_of(items@);
                        items.push(v);
                        assert(models_of(items@) =~= before.push(v.model()));
                        assert(more_elements(s, e as int).0 =~= seq![v.model()] + more_elements(s, c.pos()).0);
                    },
                    Err(_) => {
                        c.rewind(e);
                        assert(more_elements(s, c.pos()).0 =~= Seq::<ValueModel>::empty());
                        break;
                    },
                }
            }
        },
    }
    match c.sep_with_space(']') {
        Ok(()) => Ok(items),
        Err(e) => {
            c.rewind(start);
            Err(e)
        },
    }
}

/// `string ws ":" ws value`.
pub fn parse_pair(c: &mut Cursor) -> (r: Result<(String, JsonValue), ParseError>)
    requires
        old(c).wf(),
    ensures
        final(c).wf(),
        final(c).input() == old(c).input(),
        outcome(pair_result(old(c).input(), old(c).pos()), pair_result_model(r), old(c).pos(), final(c).pos()),
    decreases budget(old(c).input(), old(c).pos()), 1nat,
{
    let start = c.position();
    let k = match parse_string(c) {
        Ok(k) => k,
        Err(e) => return Err(e),
    };
    if let Err(e) = c.sep_with_space(':') {
        c.rewind(start);
        return Err(e);
    }
    match parse_value(c) {
        Ok(v) => Ok((k, v)),
        Err(e) => {
            c.rewind(start);
            Err(e)
        },
    }
}

/// `{` pairs separated by `,` `}`, at least one pair; a repeated key keeps
/// its last value.
#[verifier::rlimit(50)]
pub fn parse_object(c: &mut Cursor) -> (r: Result<Vec<(String, JsonValue)>, ParseError>)
    requires
        old(c).wf(),
    ensures
        final(c).wf(),
        final(c).input() == old(c).input(),
        outcome(object_result(old(c).input(), old(c).pos()), entries_result_model(r), old(c).pos(), final(c).pos()),
    decreases budget(old(c).input(), old(c).pos()), 2nat,
{
    let ghost s = c.input();
    let start = c.position();
    if let Err(e) = c.sep_with_space('{') {
        return Err(e);
    }
    let q = c.position();
    let mut entries: Vec<(String, JsonValue)> = Vec::new();
    let ghost mut pairs: Seq<(Seq<char>, ValueModel)> = seq![];
    match parse_pair(c) {
        Err(e) => {
            c.rewind(start);
            return Err(e);
        },
        Ok((k, v)) => {
            proof {
                pairs = seq![(k@, v.model())];
                assert(pairs.drop_last() =~= Seq::<(Seq<char>, ValueModel)>::empty());
                assert(entry_models(entries@) =~= Seq::<(Seq<char>, ValueModel)>::empty());
                assert(entries_of(Seq::<(Seq<char>, ValueModel)>::empty()) == Seq::<(Seq<char>, ValueModel)>::empty());
            }
            insert_entry(&mut entries, k, v);
        },
    }
    loop
        invariant
            c.wf(),
            c.input() == s,
            old(c).input() == s,
            old(c).pos() == start,
            start < q <= c.pos(),
            entry_models(entries@) == entries_of(pairs),
            pairs + more_members(s, c.pos()).0 == members_result(s, q as int)->Ok_0.0,
            (c.pos() - q) + more_members(s, c.pos()).1 == members_result(s, q as int)->Ok_0.1,
            members_result(s, q as int) is Ok,
        ensures
            c.wf(),
            c.input() == s,
            start < q <= c.pos(),
            entry_models(entries@) == entries_of(pairs),
            pairs == members_result(s, q as int)->Ok_0.0,
            (c.pos() - q) == members_result(s, q as int)->Ok_0.1,
            members_result(s, q as int) is Ok,
        decreases budget(s, c.pos()),
    {
        let e = c.position();
        if c.sep_with_space(',').is_err() {
            assert(pairs + more_members(s, c.pos()).0 =~= pairs);
            break;
        }
        match parse_pair(c) {
            Ok((k, v)) => {
                let ghost kv = (k@, v.model());
                assert(more_members(s, e as int).0 =~= seq![kv] + more_members(s, c.pos()).0);
                proof {
                    let old_pairs = pairs;
                    pairs = pairs.push(kv);
                    assert(pairs.drop_last() =~= old_pairs);
                    assert(pairs + more_members(s, c.pos()).0 =~= old_pairs + more_members(s, e as int).0);
                }
                insert_entry(&mut entries, k, v);
            },
            Err(_) => {
                c.rewind(e);
                assert(pairs + more_members(s, c.pos()).0 =~= pairs);
                break;
            },
        }
    }
    match c.sep_with_space('}') {
        Ok(()) => Ok(entries),
        Err(e) => {
            c.rewind(start);
            Err(e)
        },
    }
}

/// Parses a whole document: one value, then nothing but whitespace.
pub fn parse_json(input: &str) -> (r: Result<JsonValue, ParseError>)
    ensures
        value_result_model(r) == document_result(input@),
{
    let mut c = Cursor::new(input);
    let v = match parse_value(&mut c) {
        Ok(v) => v,
        Err(e) => return Err(e),
    };
    c.skip_whitespace();
    if c.remaining() == 0 {
        Ok(v)
    } else {
        Err(ParseError { kind: ErrorKind::TrailingInput, pos: c.position() })
    }
}

} // verus!
