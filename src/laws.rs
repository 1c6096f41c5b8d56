//! Properties of the grammar that hold for every text: each value, written
//! compactly at any position of any input, parses back to exactly itself.
use vstd::prelude::*;
use crate::grammar::{
    array_result, bool_result, digit_value, digits_len, digits_value, document_result,
    elements_result, entries_of, false_text, has_literal, is_digit, is_ws, key_index,
    lemma_digit_run_facts, literal_result, more_elements, more_members, null_text,
    number_result, object_result, pair_result, quoted_result, true_text, unquoted_len,
    value_result, ws_len, ParseError,
};
use crate::value::{NumModel, ValueModel};

verus! {

/// Text that a quoted string can hold: no `"`.
pub open spec fn quote_free(t: Seq<char>) -> bool {
    forall|i: int| 0 <= i < t.len() ==> t[i] != '"'
}

/// `s` holds `t` at position `p`.
pub open spec fn holds_at(s: Seq<char>, p: int, t: Seq<char>) -> bool {
    0 <= p && p + t.len() <= s.len() && s.subrange(p, p + t.len()) == t
}

/// The text of a quoted string.
pub open spec fn quoted(t: Seq<char>) -> Seq<char> {
    seq!['"'] + t + seq!['"']
}

proof fn lemma_unquoted_len(s: Seq<char>, i: int, end: int)
    requires
        0 <= i <= end < s.len(),
        s[end] == '"',
        forall|j: int| i <= j < end ==> s[j] != '"',
    ensures
        unquoted_len(s, i) == end - i,
    decreases end - i,
{
    if i < end {
        lemma_unquoted_len(s, i + 1, end);
    }
}

proof fn lemma_first_char(s: Seq<char>, p: int, t: Seq<char>)
    requires
        holds_at(s, p, t),
        t.len() > 0,
    ensures
        s[p] == t[0],
{
    assert(s.subrange(p, p + t.len())[0] == s[p]);
}

proof fn lemma_not_literal(s: Seq<char>, p: int, lit: Seq<char>)
    requires
        0 <= p < s.len(),
        lit.len() > 0,
        s[p] != lit[0],
    ensures
        !has_literal(s, p, lit),
{
    if has_literal(s, p, lit) {
        assert(s.subrange(p, p + lit.len())[0] == s[p]);
    }
}

/// The scalar alternatives before strings (null, booleans, numbers) all
/// fail on a character that starts none of them.
proof fn lemma_no_scalar_prefix(s: Seq<char>, p: int)
    requires
        0 <= p < s.len(),
        s[p] != 'n' && s[p] != 't' && s[p] != 'f' && s[p] != '-' && !is_digit(s[p]),
    ensures
        literal_result(s, p, null_text()) is Err,
        bool_result(s, p) is Err,
        number_result(s, p) is Err,
{
    lemma_not_literal(s, p, null_text());
    lemma_not_literal(s, p, true_text());
    lemma_not_literal(s, p, false_text());
    reveal(number_result);
    assert(digits_len(s, p) == 0);
}

/// `null` written anywhere parses back to `Null`, consuming exactly its four
/// characters.
pub proof fn lemma_null_round_trip(s: Seq<char>, p: int)
    requires
        holds_at(s, p, null_text()),
    ensures
        value_result(s, p) == Ok::<(ValueModel, nat), ParseError>((ValueModel::Null, 4)),
{
    assert(has_literal(s, p, null_text()));
}

/// `true` and `false` written anywhere parse back to that boolean, consuming
/// exactly their characters.
pub proof fn lemma_bool_round_trip(s: Seq<char>, p: int, b: bool)
    requires
        holds_at(s, p, if b { true_text() } else { false_text() }),
    ensures
        value_result(s, p) == Ok::<(ValueModel, nat), ParseError>(
            (ValueModel::Bool(b), if b { 4nat } else { 5nat }),
        ),
{
    let t = if b { true_text() } else { false_text() };
    lemma_first_char(s, p, t);
    lemma_not_literal(s, p, null_text());
    if b {
        assert(has_literal(s, p, true_text()));
    } else {
        lemma_not_literal(s, p, true_text());
        assert(has_literal(s, p, false_text()));
    }
}

proof fn lemma_quoted_parses(s: Seq<char>, p: int, t: Seq<char>)
    requires
        quote_free(t),
        holds_at(s, p, quoted(t)),
    ensures
        quoted_result(s, p) == Ok::<(Seq<char>, nat), ParseError>((t, t.len() + 2)),
{
    let q = quoted(t);
    let n = t.len() as int;
    assert forall|j: int| 0 <= j < q.len() implies s[p + j] == q[j] by {
        assert(s.subrange(p, p + q.len())[j] == s[p + j]);
    }
    assert(s[p] == q[0]);
    assert forall|j: int| p + 1 <= j < p + 1 + n implies s[j] != '"' by {
        assert(s[j] == q[j - p]);
        assert(q[j - p] == t[j - p - 1]);
    }
    assert(s[p + 1 + n] == q[n + 1]);
    lemma_unquoted_len(s, p + 1, p + 1 + n);
    assert(s.subrange(p + 1, p + 1 + n) =~= t) by {
        assert forall|j: int| 0 <= j < n implies s.subrange(p + 1, p + 1 + n)[j] == t[j] by {
            assert(s[p + 1 + j] == q[j + 1]);
        }
    }
}

/// A quoted string with no `"` inside, written anywhere, parses back to
/// exactly its inner text, consuming the text and both quotes.
pub proof fn lemma_string_round_trip(s: Seq<char>, p: int, t: Seq<char>)
    requires
        quote_free(t),
        holds_at(s, p, quoted(t)),
    ensures
        value_result(s, p) == Ok::<(ValueModel, nat), ParseError>((ValueModel::Str(t), t.len() + 2)),
{
    lemma_holds_char(s, p, quoted(t), 0);
    lemma_no_scalar_prefix(s, p);
    lemma_quoted_parses(s, p, t);
}

/// The digit for `d`, where `0 <= d < 10`.
pub open spec fn digit_char(d: int) -> char {
    seq!['0', '1', '2', '3', '4', '5', '6', '7', '8', '9'][d]
}

/// The decimal digits of `n`, with no leading zero.
pub open spec fn nat_text(n: nat) -> Seq<char>
    decreases n,
{
    if n < 10 {
        seq![digit_char(n as int)]
    } else {
        nat_text(n / 10).push(digit_char(n as int % 10))
    }
}

/// The text of an integer: a `-` for a negative one, then its digits.
pub open spec fn int_text(n: int) -> Seq<char> {
    if n < 0 {
        seq!['-'] + nat_text((-n) as nat)
    } else {
        nat_text(n as nat)
    }
}

/// `t` reads `["-"] digit+ "." digit+`.
pub open spec fn decimal_ok(t: Seq<char>) -> bool {
    let sg: int = if t.len() > 0 && t[0] == '-' {
        1
    } else {
        0
    };
    let n1 = digits_len(t, sg);
    let n2 = digits_len(t, sg + n1 + 1);
    &&& n1 > 0
    &&& sg + n1 < t.len()
    &&& t[sg + n1] == '.'
    &&& n2 > 0
    &&& sg + n1 + 1 + n2 == t.len()
}

/// What may follow a value in compact text: a `,`, a `]`, a `}`, or the end.
pub open spec fn follows_ok(s: Seq<char>, q: int) -> bool {
    q == s.len() || (0 <= q < s.len() && (s[q] == ',' || s[q] == ']' || s[q] == '}'))
}

/// No key occurs twice.
pub open spec fn keys_distinct(entries: Seq<(Seq<char>, ValueModel)>) -> bool {
    forall|i: int, j: int| 0 <= i < j < entries.len() ==> entries[i].0 != entries[j].0
}

/// Values that have a text: integers that fit in an `i64` (but its
/// minimum), well-formed decimal literals, strings without `"`, arrays of
/// such values, and non-empty objects with distinct keys.
pub open spec fn plain(v: ValueModel) -> bool
    decreases v,
{
    match v {
        ValueModel::Null => true,
        ValueModel::Bool(_) => true,
        ValueModel::Number(NumModel::Int(n)) => -i64::MAX <= n <= i64::MAX,
        ValueModel::Number(NumModel::Float(t)) => decimal_ok(t),
        ValueModel::Str(t) => quote_free(t),
        ValueModel::Array(items) => forall|i: int| 0 <= i < items.len() ==> plain(#[trigger] items[i]),
        ValueModel::Object(entries) => {
            &&& entries.len() > 0
            &&& keys_distinct(entries)
            &&& forall|i: int|
                0 <= i < entries.len() ==> quote_free(#[trigger] entries[i].0) && plain(entries[i].1)
        },
    }
}

/// The compact text of a plain value: no whitespace anywhere.
pub open spec fn render(v: ValueModel) -> Seq<char>
    decreases v, 1nat, 0nat,
{
    match v {
        ValueModel::Null => null_text(),
        ValueModel::Bool(b) => if b {
            true_text()
        } else {
            false_text()
        },
        ValueModel::Number(NumModel::Int(n)) => int_text(n),
        ValueModel::Number(NumModel::Float(t)) => t,
        ValueModel::Str(t) => quoted(t),
        ValueModel::Array(items) => seq!['['] + render_from(v, 0) + seq![']'],
        ValueModel::Object(entries) => seq!['{'] + members_from(v, 0) + seq!['}'],
    }
}

/// The pairs of object `v` from index `k` on, as `"key":value`, separated
/// by commas.
pub open spec fn members_from(v: ValueModel, k: nat) -> Seq<char>
    decreases v, 0nat, (if v is Object { v->Object_0.len() } else { 0 }) - k,
{
    match v {
        ValueModel::Object(entries) => if k >= entries.len() {
            seq![]
        } else if k + 1 == entries.len() {
            quoted(entries[k as int].0) + seq![':'] + render(entries[k as int].1)
        } else {
            quoted(entries[k as int].0) + seq![':'] + render(entries[k as int].1) + seq![',']
                + members_from(v, k + 1)
        },
        _ => seq![],
    }
}

/// The elements of array `v` from index `k` on, separated by commas.
pub open spec fn render_from(v: ValueModel, k: nat) -> Seq<char>
    decreases v, 0nat, (if v is Array { v->Array_0.len() } else { 0 }) - k,
{
    match v {
        ValueModel::Array(items) => if k >= items.len() {
            seq![]
        } else if k + 1 == items.len() {
            render(items[k as int])
        } else {
            render(items[k as int]) + seq![','] + render_from(v, k + 1)
        },
        _ => seq![],
    }
}

proof fn lemma_holds_split(s: Seq<char>, p: int, a: Seq<char>, b: Seq<char>)
    requires
        holds_at(s, p, a + b),
    ensures
        holds_at(s, p, a),
        holds_at(s, p + a.len(), b),
{
    let w = s.subrange(p, p + a.len() + b.len());
    assert(w == a + b);
    assert(s.subrange(p, p + a.len()) =~= w.subrange(0, a.len() as int));
    assert((a + b).subrange(0, a.len() as int) =~= a);
    assert(s.subrange(p + a.len(), p + a.len() + b.len()) =~= w.subrange(a.len() as int, w.len() as int));
    assert((a + b).subrange(a.len() as int, (a + b).len() as int) =~= b);
}

proof fn lemma_holds_char(s: Seq<char>, p: int, a: Seq<char>, i: int)
    requires
        holds_at(s, p, a),
        0 <= i < a.len(),
    ensures
        s[p + i] == a[i],
{
    assert(s.subrange(p, p + a.len())[i] == s[p + i]);
}

proof fn lemma_render_first(v: ValueModel)
    requires
        plain(v),
    ensures
        render(v).len() > 0,
        !is_ws(render(v)[0]),
        render(v)[0] != ']',
{
    match v {
        ValueModel::Number(NumModel::Int(n)) => {
            lemma_nat_text((if n < 0 { -n } else { n }) as nat);
        },
        _ => {},
    }
}

proof fn lemma_ws_none(s: Seq<char>, p: int)
    requires
        p == s.len() || (0 <= p < s.len() && !is_ws(s[p])),
    ensures
        ws_len(s, p) == 0,
{
}

/// Nothing parses as a value at a `]`.
proof fn lemma_no_value_at_close(s: Seq<char>, p: int)
    requires
        0 <= p < s.len(),
        s[p] == ']',
    ensures
        value_result(s, p) is Err,
{
    lemma_no_scalar_prefix(s, p);
    lemma_ws_none(s, p);
}

proof fn lemma_value_parses(s: Seq<char>, p: int, v: ValueModel)
    requires
        plain(v),
        holds_at(s, p, render(v)),
        follows_ok(s, p + render(v).len()),
    ensures
        value_result(s, p) == Ok::<(ValueModel, nat), ParseError>((v, render(v).len())),
    decreases v, 2nat, 0nat,
{
    match v {
        ValueModel::Null => lemma_null_round_trip(s, p),
        ValueModel::Bool(b) => lemma_bool_round_trip(s, p, b),
        ValueModel::Str(t) => lemma_string_round_trip(s, p, t),
        ValueModel::Number(x) => lemma_number_parses(s, p, x),
        ValueModel::Array(items) => {
            lemma_holds_char(s, p, render(v), 0);
            lemma_no_scalar_prefix(s, p);
            lemma_array_parses(s, p, v);
        },
        ValueModel::Object(entries) => {
            lemma_holds_char(s, p, render(v), 0);
            lemma_no_scalar_prefix(s, p);
            lemma_ws_none(s, p);
            lemma_object_parses(s, p, v);
        },
    }
}

proof fn lemma_array_parses(s: Seq<char>, p: int, v: ValueModel)
    requires
        plain(v),
        v is Array,
        holds_at(s, p, render(v)),
        follows_ok(s, p + render(v).len()),
    ensures
        array_result(s, p) == Ok::<(Seq<ValueModel>, nat), ParseError>((v->Array_0, render(v).len())),
    decreases v, 1nat, 0nat,
{
    let items = v->Array_0;
    let r = render(v);
    let j = render_from(v, 0);
    let n = items.len();
    lemma_holds_split(s, p, seq!['['] + j, seq![']']);
    lemma_holds_split(s, p, seq!['['], j);
    lemma_holds_char(s, p, seq!['['], 0);
    lemma_holds_char(s, p + 1 + j.len(), seq![']'], 0);
    lemma_ws_none(s, p);
    lemma_ws_none(s, p + 1 + j.len());
    lemma_ws_none(s, p + r.len());
    let close = p + 1 + j.len();
    if n == 0 {
        assert(j.len() == 0);
        lemma_ws_none(s, p + 1);
        lemma_no_value_at_close(s, p + 1);
        assert(elements_result(s, p + 1) == (Seq::<ValueModel>::empty(), 0nat));
        assert(items =~= Seq::<ValueModel>::empty());
    } else {
        let r0 = render(items[0]);
        assert(plain(items[0]));
        lemma_render_first(items[0]);
        if n == 1 {
            assert(j == r0);
        } else {
            let tail = seq![','] + render_from(v, 1);
            assert(j =~= r0 + tail);
            lemma_holds_split(s, p + 1, r0, tail);
            lemma_holds_char(s, p + 1 + r0.len(), tail, 0);
            assert(p + 1 + r0.len() + 1 + render_from(v, 1).len() == close);
        }
        lemma_holds_char(s, p + 1, r0, 0);
        lemma_ws_none(s, p + 1);
        lemma_value_parses(s, p + 1, items[0]);
        lemma_more_parses(s, p + 1 + r0.len(), v, 1);
        assert(seq![items[0]] + items.subrange(1, n as int) =~= items);
    }
}

proof fn lemma_more_parses(s: Seq<char>, e: int, v: ValueModel, k: nat)
    requires
        plain(v),
        v is Array,
        1 <= k <= v->Array_0.len(),
        k < v->Array_0.len() ==> holds_at(s, e, seq![','] + render_from(v, k)),
        k < v->Array_0.len() ==> 0 <= e + 1 + render_from(v, k).len() < s.len()
            && s[e + 1 + render_from(v, k).len()] == ']',
        k == v->Array_0.len() ==> 0 <= e < s.len() && s[e] == ']',
    ensures
        more_elements(s, e) == (
            v->Array_0.subrange(k as int, v->Array_0.len() as int),
            if k < v->Array_0.len() { 1 + render_from(v, k).len() } else { 0nat },
        ),
    decreases v, 0nat, v->Array_0.len() - k,
{
    let items = v->Array_0;
    let n = items.len();
    if k == n {
        lemma_ws_none(s, e);
        assert(items.subrange(k as int, n as int) =~= Seq::<ValueModel>::empty());
    } else {
        let rk = render(items[k as int]);
        let rest = render_from(v, k);
        assert(plain(items[k as int]));
        lemma_render_first(items[k as int]);
        lemma_holds_split(s, e, seq![','], rest);
        lemma_holds_char(s, e, seq![','], 0);
        lemma_ws_none(s, e);
        lemma_holds_char(s, e + 1, rest, 0);
        lemma_ws_none(s, e + 1);
        if k + 1 == n {
            assert(rest == rk);
            lemma_value_parses(s, e + 1, items[k as int]);
            lemma_more_parses(s, e + 1 + rk.len(), v, k + 1);
        } else {
            let tail = seq![','] + render_from(v, k + 1);
            assert(rest =~= rk + tail);
            lemma_holds_split(s, e + 1, rk, tail);
            lemma_holds_char(s, e + 1 + rk.len(), tail, 0);
            lemma_value_parses(s, e + 1, items[k as int]);
            lemma_more_parses(s, e + 1 + rk.len(), v, k + 1);
        }
        assert(seq![items[k as int]] + items.subrange((k + 1) as int, n as int) =~= items.subrange(k as int, n as int));
    }
}

/// Every document that has a text (see `plain`), written compactly by
/// `render`, parses back to exactly that document: the same scalars, the
/// same nesting, the same order of elements and of keys.
pub proof fn lemma_document_round_trip(v: ValueModel)
    requires
        plain(v),
    ensures
        document_result(render(v)) == Ok::<ValueModel, ParseError>(v),
{
    let r = render(v);
    assert(r.subrange(0, r.len() as int) =~= r);
    lemma_value_parses(r, 0, v);
    lemma_ws_none(r, r.len() as int);
}

proof fn lemma_digit_char(d: int)
    requires
        0 <= d < 10,
    ensures
        is_digit(digit_char(d)),
        digit_value(digit_char(d)) == d,
{
    if d == 0 {
    } else if d == 1 {
    } else if d == 2 {
    } else if d == 3 {
    } else if d == 4 {
    } else if d == 5 {
    } else if d == 6 {
    } else if d == 7 {
    } else if d == 8 {
    } else {
    }
}

proof fn lemma_nat_text(n: nat)
    ensures
        nat_text(n).len() > 0,
        forall|j: int| 0 <= j < nat_text(n).len() ==> is_digit(#[trigger] nat_text(n)[j]),
        digits_value(nat_text(n)) == n,
    decreases n,
{
    lemma_digit_char(n as int % 10);
    if n >= 10 {
        lemma_nat_text(n / 10);
        assert(nat_text(n).drop_last() =~= nat_text(n / 10));
        assert(nat_text(n).last() == digit_char(n as int % 10));
        assert(n == (n / 10) * 10 + n % 10);
        let x = nat_text(n);
        assert(digits_value(x) == digits_value(x.drop_last()) * 10 + digit_value(x.last()));
        assert(digits_value(x) == (n / 10) as int * 10 + (n as int % 10));
    } else {
        assert(nat_text(n).drop_last() =~= Seq::<char>::empty());
        assert(nat_text(n).last() == digit_char(n as int));
        let x = nat_text(n);
        assert(digits_value(x.drop_last()) == 0);
        assert(digits_value(x) == digits_value(x.drop_last()) * 10 + digit_value(x.last()));
    }
}

/// A run of `m` digits at `a` that nothing extends is what `digits_len` finds.
proof fn lemma_digits_len_at(s: Seq<char>, a: int, m: int)
    requires
        0 <= a,
        0 <= m,
        a + m <= s.len(),
        forall|j: int| a <= j < a + m ==> is_digit(#[trigger] s[j]),
        a + m == s.len() || !is_digit(s[a + m]),
    ensures
        digits_len(s, a) == m,
    decreases m,
{
    if m > 0 {
        lemma_digits_len_at(s, a + 1, m - 1);
    }
}

proof fn lemma_number_parses(s: Seq<char>, p: int, x: NumModel)
    requires
        plain(ValueModel::Number(x)),
        holds_at(s, p, render(ValueModel::Number(x))),
        follows_ok(s, p + render(ValueModel::Number(x)).len()),
    ensures
        value_result(s, p) == Ok::<(ValueModel, nat), ParseError>(
            (ValueModel::Number(x), render(ValueModel::Number(x)).len()),
        ),
{
    let t = render(ValueModel::Number(x));
    let e = p + t.len();
    assert forall|j: int| 0 <= j < t.len() implies s[p + j] == t[j] by {
        lemma_holds_char(s, p, t, j);
    }
    lemma_render_first(ValueModel::Number(x));
    reveal(number_result);
    match x {
        NumModel::Int(n) => {
            let m = (if n < 0 { -n } else { n }) as nat;
            let d = nat_text(m);
            let sg: int = if n < 0 { 1 } else { 0 };
            lemma_nat_text(m);
            assert(t =~= if n < 0 { seq!['-'] + d } else { d });
            assert forall|j: int| p + sg <= j < e implies #[trigger] is_digit(s[j]) by {
                assert(s[j] == t[j - p]);
                assert(t[j - p] == d[j - p - sg]);
            }
            assert(s[p] == t[0]);
            if n >= 0 {
                assert(is_digit(s[p]));
            }
            lemma_not_literal(s, p, null_text());
            lemma_not_literal(s, p, true_text());
            lemma_not_literal(s, p, false_text());
            lemma_digits_len_at(s, p + sg, d.len() as int);
            assert(s.subrange(p + sg, e) =~= d) by {
                assert forall|j: int| 0 <= j < d.len() implies s.subrange(p + sg, e)[j] == d[j] by {
                    assert(s[p + sg + j] == t[sg + j]);
                }
            }
        },
        NumModel::Float(t0) => {
            let sg: int = if t.len() > 0 && t[0] == '-' { 1 } else { 0 };
            let n1 = digits_len(t, sg);
            let n2 = digits_len(t, sg + n1 + 1);
            lemma_digit_run_facts(t, sg);
            lemma_digit_run_facts(t, sg + n1 + 1);
            assert(s[p] == t[0]);
            if sg == 0 {
                assert(is_digit(t[0]));
            }
            lemma_not_literal(s, p, null_text());
            lemma_not_literal(s, p, true_text());
            lemma_not_literal(s, p, false_text());
            assert forall|j: int| p + sg <= j < p + sg + n1 implies #[trigger] is_digit(s[j]) by {
                assert(s[j] == t[j - p]);
            }
            assert(s[p + sg + n1] == t[sg + n1]);
            lemma_digits_len_at(s, p + sg, n1 as int);
            assert forall|j: int| p + sg + n1 + 1 <= j < e implies #[trigger] is_digit(s[j]) by {
                assert(s[j] == t[j - p]);
            }
            lemma_digits_len_at(s, p + sg + n1 + 1, n2 as int);
            assert(s.subrange(p, e) =~= t);
        },
    }
}

proof fn lemma_key_absent(entries: Seq<(Seq<char>, ValueModel)>, k: Seq<char>)
    requires
        forall|i: int| 0 <= i < entries.len() ==> entries[i].0 != k,
    ensures
        key_index(entries, k) == -1,
    decreases entries.len(),
{
    if entries.len() > 0 {
        lemma_key_absent(entries.drop_last(), k);
    }
}

/// With distinct keys, the entries of an object are its pairs as written.
proof fn lemma_entries_of_distinct(pairs: Seq<(Seq<char>, ValueModel)>)
    requires
        keys_distinct(pairs),
    ensures
        entries_of(pairs) == pairs,
    decreases pairs.len(),
{
    if pairs.len() > 0 {
        let init = pairs.drop_last();
        assert(keys_distinct(init));
        lemma_entries_of_distinct(init);
        assert forall|i: int| 0 <= i < init.len() implies init[i].0 != pairs.last().0 by {
            assert(pairs[i].0 != pairs[pairs.len() - 1].0);
        }
        lemma_key_absent(init, pairs.last().0);
        assert(init.push(pairs.last()) =~= pairs);
    }
}

/// One `"key":value` pair of object `v`, followed by a `,` or a `}`.
proof fn lemma_pair_parses(s: Seq<char>, q: int, v: ValueModel, k: nat)
    requires
        plain(v),
        v is Object,
        k < v->Object_0.len(),
        holds_at(s, q, quoted(v->Object_0[k as int].0) + seq![':'] + render(v->Object_0[k as int].1)),
        follows_ok(s, q + (quoted(v->Object_0[k as int].0) + seq![':'] + render(v->Object_0[k as int].1)).len()),
    ensures
        pair_result(s, q) == Ok::<((Seq<char>, ValueModel), nat), ParseError>(
            (v->Object_0[k as int], (quoted(v->Object_0[k as int].0) + seq![':'] + render(v->Object_0[k as int].1)).len()),
        ),
    decreases v, 0nat, 0nat,
{
    let entries = v->Object_0;
    let key = entries[k as int].0;
    let val = entries[k as int].1;
    assert(quote_free(key) && plain(val));
    let kq = quoted(key);
    let rv = render(val);
    lemma_holds_split(s, q, kq + seq![':'], rv);
    lemma_holds_split(s, q, kq, seq![':']);
    lemma_holds_char(s, q + kq.len(), seq![':'], 0);
    lemma_quoted_parses(s, q, key);
    lemma_render_first(val);
    lemma_holds_char(s, q + kq.len() + 1, rv, 0);
    lemma_ws_none(s, q + kq.len());
    lemma_ws_none(s, q + kq.len() + 1);
    lemma_value_parses(s, q + kq.len() + 1, val);
}

proof fn lemma_more_members_parse(s: Seq<char>, e: int, v: ValueModel, k: nat)
    requires
        plain(v),
        v is Object,
        1 <= k <= v->Object_0.len(),
        k < v->Object_0.len() ==> holds_at(s, e, seq![','] + members_from(v, k)),
        k < v->Object_0.len() ==> 0 <= e + 1 + members_from(v, k).len() < s.len()
            && s[e + 1 + members_from(v, k).len()] == '}',
        k == v->Object_0.len() ==> 0 <= e < s.len() && s[e] == '}',
    ensures
        more_members(s, e) == (
            v->Object_0.subrange(k as int, v->Object_0.len() as int),
            if k < v->Object_0.len() { 1 + members_from(v, k).len() } else { 0nat },
        ),
    decreases v, 0nat, v->Object_0.len() - k,
{
    let entries = v->Object_0;
    let n = entries.len();
    if k == n {
        lemma_ws_none(s, e);
        assert(entries.subrange(k as int, n as int) =~= Seq::<(Seq<char>, ValueModel)>::empty());
    } else {
        let pk = quoted(entries[k as int].0) + seq![':'] + render(entries[k as int].1);
        let rest = members_from(v, k);
        lemma_holds_split(s, e, seq![','], rest);
        lemma_holds_char(s, e, seq![','], 0);
        lemma_ws_none(s, e);
        lemma_holds_char(s, e + 1, rest, 0);
        lemma_ws_none(s, e + 1);
        if k + 1 == n {
            assert(rest == pk);
            lemma_pair_parses(s, e + 1, v, k);
            lemma_more_members_parse(s, e + 1 + pk.len(), v, k + 1);
        } else {
            let tail = seq![','] + members_from(v, k + 1);
            assert(rest =~= pk + tail);
            lemma_holds_split(s, e + 1, pk, tail);
            lemma_holds_char(s, e + 1 + pk.len(), tail, 0);
            lemma_pair_parses(s, e + 1, v, k);
            lemma_more_members_parse(s, e + 1 + pk.len(), v, k + 1);
        }
        assert(seq![entries[k as int]] + entries.subrange((k + 1) as int, n as int) =~= entries.subrange(k as int, n as int));
    }
}

proof fn lemma_object_parses(s: Seq<char>, p: int, v: ValueModel)
    requires
        plain(v),
        v is Object,
        holds_at(s, p, render(v)),
        follows_ok(s, p + render(v).len()),
    ensures
        object_result(s, p) == Ok::<(Seq<(Seq<char>, ValueModel)>, nat), ParseError>((v->Object_0, render(v).len())),
    decreases v, 1nat, 0nat,
{
    let entries = v->Object_0;
    let r = render(v);
    let j = members_from(v, 0);
    let n = entries.len();
    lemma_holds_split(s, p, seq!['{'] + j, seq!['}']);
    lemma_holds_split(s, p, seq!['{'], j);
    lemma_holds_char(s, p, seq!['{'], 0);
    lemma_holds_char(s, p + 1 + j.len(), seq!['}'], 0);
    lemma_ws_none(s, p);
    lemma_ws_none(s, p + 1 + j.len());
    lemma_ws_none(s, p + r.len());
    let close = p + 1 + j.len();
    let first = quoted(entries[0].0) + seq![':'] + render(entries[0].1);
    if n == 1 {
        assert(j == first);
    } else {
        let tail = seq![','] + members_from(v, 1);
        assert(j =~= first + tail);
        lemma_holds_split(s, p + 1, first, tail);
        lemma_holds_char(s, p + 1 + first.len(), tail, 0);
        assert(p + 1 + first.len() + 1 + members_from(v, 1).len() == close);
    }
    lemma_holds_char(s, p + 1, first, 0);
    lemma_ws_none(s, p + 1);
    lemma_pair_parses(s, p + 1, v, 0);
    lemma_more_members_parse(s, p + 1 + first.len(), v, 1);
    assert(seq![entries[0]] + entries.subrange(1, n as int) =~= entries);
    lemma_entries_of_distinct(entries);
}

} // verus!
