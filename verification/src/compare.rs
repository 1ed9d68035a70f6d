//! Comparing colouring data with captured responses.
use crate::json::{jsons, Json, JsonValue};
use crate::outside::{quote, quoted};
use crate::pipeline::opt_text;
use crate::text::{
    begins_with, chars_of, concat3, concat_text, decimal, decimal_text, decimal_wide, join_text, joined, same_text, texts,
};
use crate::whocolor::{
    color_tokens, ColorRevisionView, ColorTokenView, WhoColorData, WhoColorRevision,
    WhoColorToken,
};
use crate::whocolor_html::{class_name_of, token_class_name};
use vstd::hash_map::StringHashMap;
use vstd::prelude::*;

verus! {

/// In which fields a token agrees with a captured one.
#[derive(Debug, Clone, Copy, PartialEq, Eq, Structural)]
pub struct TokenScore {
    pub str: bool,
    pub o_rev_id: bool,
    pub inbound: bool,
    pub outbound: bool,
    pub conflict_score: bool,
    pub class_name: bool,
    pub age: bool,
}

impl TokenScore {
    /// Whether all fields but the age agree.
    pub open spec fn passes(self) -> bool {
        self.str && self.o_rev_id && self.inbound && self.outbound && self.conflict_score
            && self.class_name
    }

    /// Whether all fields but the age agree.
    pub fn all_required_pass(self) -> (r: bool)
        ensures
            r == self.passes(),
    {
        self.str && self.o_rev_id && self.inbound && self.outbound && self.conflict_score
            && self.class_name
    }
}

/// The number at a place of a list.
pub open spec fn number_at(row: Seq<Json>, i: int) -> Option<u64> {
    if 0 <= i < row.len() {
        row[i].unsigned()
    } else {
        None
    }
}

/// The text at a place of a list.
pub open spec fn text_at(row: Seq<Json>, i: int) -> Option<Seq<char>> {
    if 0 <= i < row.len() {
        row[i].text()
    } else {
        None
    }
}

/// The numbers among the items from the `k`th on.
pub open spec fn numbers_from(items: Seq<Json>, k: int) -> Seq<u64>
    decreases items.len() - k,
{
    if k < 0 || k >= items.len() {
        Seq::empty()
    } else {
        match items[k].unsigned() {
            Some(n) => seq![n] + numbers_from(items, k + 1),
            None => numbers_from(items, k + 1),
        }
    }
}

/// The numbers of the list at a place of a list.
pub open spec fn numbers_at(row: Seq<Json>, i: int) -> Option<Seq<u64>> {
    if 0 <= i < row.len() {
        match row[i].list() {
            Some(items) => Some(numbers_from(items, 0)),
            None => None,
        }
    } else {
        None
    }
}

/// In which fields a token agrees with a captured one: its conflict score, its text,
/// the revision that introduced it, those that brought it back and that deleted it,
/// and what names its editor, in that order.
pub open spec fn token_score(t: ColorTokenView, row: Seq<Json>, age: bool) -> TokenScore {
    TokenScore {
        str: text_at(row, 1) == Some(t.str),
        o_rev_id: number_at(row, 2) == Some(t.o_rev_id),
        inbound: numbers_at(row, 3) == Some(t.inbound),
        outbound: numbers_at(row, 4) == Some(t.outbound),
        conflict_score: number_at(row, 0) is Some && number_at(row, 0)->0 as int % 0x1_0000_0000
            == t.conflict_score,
        class_name: text_at(row, 5) == Some(class_name_of(t.editor)),
        age,
    }
}

/// The number at a place of a list.
fn get_number(row: &Vec<JsonValue>, i: usize) -> (r: Option<u64>)
    ensures
        r == number_at(jsons(row@), i as int),
{
    if i < row.len() {
        proof {
            assert(jsons(row@)[i as int] == row@[i as int]@);
        }
        row[i].as_u64()
    } else {
        None
    }
}

/// The text at a place of a list; empty where there is none.
fn get_text(row: &Vec<JsonValue>, i: usize) -> (r: Option<String>)
    ensures
        opt_text(r) == text_at(jsons(row@), i as int),
{
    if i < row.len() {
        proof {
            assert(jsons(row@)[i as int] == row@[i as int]@);
        }
        match row[i].as_str() {
            Some(s) => Some(s.to_owned()),
            None => None,
        }
    } else {
        None
    }
}

/// The numbers of the list at a place of a list.
fn get_numbers(row: &Vec<JsonValue>, i: usize) -> (r: Option<Vec<u64>>)
    ensures
        match r {
            Some(v) => numbers_at(jsons(row@), i as int) == Some(v@),
            None => numbers_at(jsons(row@), i as int) is None,
        },
{
    if i >= row.len() {
        return None;
    }
    proof {
        assert(jsons(row@)[i as int] == row@[i as int]@);
    }
    let items = match row[i].as_array() {
        Some(v) => v,
        None => {
            return None;
        },
    };
    let ghost all = jsons(items@);
    let ghost goal = numbers_from(all, 0);
    let mut out: Vec<u64> = Vec::new();
    let mut k: usize = 0;
    proof {
        assert(out@ + goal =~= goal);
    }
    while k < items.len()
        invariant
            k <= items@.len(),
            all == jsons(items@),
            out@ + numbers_from(all, k as int) == goal,
        decreases items@.len() - k,
    {
        proof {
            assert(all[k as int] == items@[k as int]@);
        }
        let ghost before = out@;
        let ghost rest = numbers_from(all, k + 1);
        if let Some(n) = items[k].as_u64() {
            out.push(n);
            proof {
                assert(out@ + rest =~= before + (seq![n] + rest));
            }
        }
        k = k + 1;
    }
    proof {
        assert(out@ =~= goal);
    }
    Some(out)
}

/// Whether two lists of numbers are the same.
fn same_numbers(a: &Vec<u64>, b: &Vec<u64>) -> (r: bool)
    ensures
        r == (a@ == b@),
{
    if a.len() != b.len() {
        return false;
    }
    let mut k: usize = 0;
    while k < a.len()
        invariant
            k <= a@.len(),
            a@.len() == b@.len(),
            forall|i: int| 0 <= i < k ==> a@[i] == b@[i],
        decreases a@.len() - k,
    {
        if a[k] != b[k] {
            return false;
        }
        k = k + 1;
    }
    proof {
        assert(a@ =~= b@);
    }
    true
}

/// Whether a text that may be missing is there and is another.
fn is_text(a: &Option<String>, b: &str) -> (r: bool)
    ensures
        r == (opt_text(*a) == Some(b@)),
{
    match a {
        Some(s) => same_text(s.as_str(), b),
        None => false,
    }
}

/// Whether a list that may be missing is there and is another.
fn is_list(a: &Option<Vec<u64>>, b: &Vec<u64>) -> (r: bool)
    ensures
        r == (a is Some && a->0@ == b@),
{
    match a {
        Some(v) => same_numbers(v, b),
        None => false,
    }
}

/// In which fields a token agrees with a captured one. Whether the ages agree is
/// handed in.
pub fn score_one_token(t: &WhoColorToken, row: &Vec<JsonValue>, age: bool) -> (r: TokenScore)
    ensures
        r == token_score(t@, jsons(row@), age),
{
    let conflict_score = match get_number(row, 0) {
        Some(n) => (n % 0x1_0000_0000) as u128 == t.conflict_score,
        None => false,
    };
    let o_rev_id = match get_number(row, 2) {
        Some(n) => n == t.o_rev_id,
        None => false,
    };
    let class_name = token_class_name(t.editor.as_str());
    TokenScore {
        str: is_text(&get_text(row, 1), t.str.as_str()),
        o_rev_id,
        inbound: is_list(&get_numbers(row, 3), &t.inbound),
        outbound: is_list(&get_numbers(row, 4), &t.outbound),
        conflict_score,
        class_name: is_text(&get_text(row, 5), class_name.as_str()),
        age,
    }
}

/// Numbers as they are written.
pub open spec fn decimals(v: Seq<u64>) -> Seq<Seq<char>> {
    v.map_values(|n: u64| decimal(n as nat))
}

/// A list of numbers in brackets.
pub open spec fn bracketed(v: Seq<u64>) -> Seq<char> {
    "["@ + joined(decimals(v), ", "@) + "]"@
}

/// A list of numbers in brackets.
fn write_list(v: &Vec<u64>) -> (r: String)
    ensures
        r@ == bracketed(v@),
{
    let mut parts: Vec<String> = Vec::new();
    let mut k: usize = 0;
    while k < v.len()
        invariant
            k <= v@.len(),
            parts@.len() == k,
            forall|i: int| 0 <= i < k ==> (#[trigger] parts@[i])@ == decimal(v@[i] as nat),
        decreases v@.len() - k,
    {
        parts.push(decimal_text(v[k]));
        k = k + 1;
    }
    proof {
        assert(texts(parts@) =~= decimals(v@));
    }
    concat3("[", join_text(&parts, ", ").as_str(), "]")
}

/// A field in which two tokens differ.
pub open spec fn difference(name: Seq<char>, ours: Seq<char>, theirs: Seq<char>) -> Seq<char> {
    name + ": rust="@ + ours + " prod="@ + theirs
}

/// A number, or 0.
pub open spec fn number_or_zero(n: Option<u64>) -> u64 {
    match n {
        Some(v) => v,
        None => 0,
    }
}

/// A text, or none.
pub open spec fn text_or_empty(s: Option<Seq<char>>) -> Seq<char> {
    match s {
        Some(v) => v,
        None => Seq::empty(),
    }
}

/// A list, or none.
pub open spec fn list_or_empty(v: Option<Seq<u64>>) -> Seq<u64> {
    match v {
        Some(x) => x,
        None => Seq::empty(),
    }
}

/// One text where it is wanted.
pub open spec fn text_if(wanted: bool, s: Seq<char>) -> Seq<Seq<char>> {
    if wanted {
        seq![s]
    } else {
        Seq::empty()
    }
}

/// The fields in which a token differs from a captured one.
pub open spec fn differences(t: ColorTokenView, row: Seq<Json>, s: TokenScore) -> Seq<Seq<char>> {
    text_if(
        !s.conflict_score,
        difference(
            "conflict_score"@,
            decimal(t.conflict_score as nat),
            decimal(number_or_zero(number_at(row, 0)) as nat),
        ),
    ) + text_if(
        !s.str,
        difference("str"@, quoted(t.str), quoted(text_or_empty(text_at(row, 1)))),
    ) + text_if(
        !s.o_rev_id,
        difference(
            "o_rev_id"@,
            decimal(t.o_rev_id as nat),
            decimal(number_or_zero(number_at(row, 2)) as nat),
        ),
    ) + text_if(
        !s.inbound,
        difference("in"@, bracketed(t.inbound), bracketed(list_or_empty(numbers_at(row, 3)))),
    ) + text_if(
        !s.outbound,
        difference("out"@, bracketed(t.outbound), bracketed(list_or_empty(numbers_at(row, 4)))),
    ) + text_if(
        !s.class_name,
        difference(
            "class_name"@,
            class_name_of(t.editor),
            quoted(text_or_empty(text_at(row, 5))),
        ),
    )
}

/// How the `i`th token differs from a captured one.
pub open spec fn token_difference(i: int, t: ColorTokenView, row: Seq<Json>, s: TokenScore) -> Seq<
    char,
> {
    "token["@ + decimal(i as nat) + "] ("@ + t.str + "): "@ + joined(
        differences(t, row, s),
        "; "@,
    )
}

/// Appends a field in which two tokens differ.
fn push_difference(out: &mut Vec<String>, name: &str, ours: &str, theirs: &str)
    ensures
        texts(final(out)@) == texts(old(out)@) + seq![difference(name@, ours@, theirs@)],
{
    let ghost before = texts(out@);
    let head = concat3(name, ": rust=", ours);
    let text = concat3(head.as_str(), " prod=", theirs);
    out.push(text);
    proof {
        assert(texts(out@) =~= before + seq![difference(name@, ours@, theirs@)]);
    }
}

/// How the `i`th token differs from a captured one.
#[verifier::rlimit(30)]
pub fn format_token_diff(
    i: usize,
    t: &WhoColorToken,
    row: &Vec<JsonValue>,
    score: TokenScore,
) -> (r: String)
    ensures
        r@ == token_difference(i as int, t@, jsons(row@), score),
{
    let ghost j = jsons(row@);
    let mut bad: Vec<String> = Vec::new();
    let ghost mut all: Seq<Seq<char>> = Seq::empty();
    proof {
        assert(texts(bad@) =~= all);
    }
    let captured = match get_number(row, 0) {
        Some(n) => n,
        None => 0,
    };
    if !score.conflict_score {
        push_difference(
            &mut bad,
            "conflict_score",
            decimal_wide(t.conflict_score).as_str(),
            decimal_text(captured).as_str(),
        );
    }
    proof {
        let d = difference(
            "conflict_score"@,
            decimal(t@.conflict_score as nat),
            decimal(number_or_zero(number_at(j, 0)) as nat),
        );
        all = text_if(!score.conflict_score, d);
        assert(texts(bad@) =~= all);
    }
    let text = match get_text(row, 1) {
        Some(s) => s,
        None => String::new(),
    };
    if !score.str {
        push_difference(
            &mut bad,
            "str",
            quote(t.str.as_str()).as_str(),
            quote(text.as_str()).as_str(),
        );
    }
    proof {
        let d = difference("str"@, quoted(t@.str), quoted(text_or_empty(text_at(j, 1))));
        all = all + text_if(!score.str, d);
        assert(texts(bad@) =~= all);
    }
    let origin = match get_number(row, 2) {
        Some(n) => n,
        None => 0,
    };
    if !score.o_rev_id {
        push_difference(
            &mut bad,
            "o_rev_id",
            decimal_text(t.o_rev_id).as_str(),
            decimal_text(origin).as_str(),
        );
    }
    proof {
        let d = difference(
            "o_rev_id"@,
            decimal(t@.o_rev_id as nat),
            decimal(number_or_zero(number_at(j, 2)) as nat),
        );
        all = all + text_if(!score.o_rev_id, d);
        assert(texts(bad@) =~= all);
    }
    let inbound = match get_numbers(row, 3) {
        Some(v) => v,
        None => Vec::new(),
    };
    if !score.inbound {
        push_difference(
            &mut bad,
            "in",
            write_list(&t.inbound).as_str(),
            write_list(&inbound).as_str(),
        );
    }
    proof {
        assert(inbound@ =~= list_or_empty(numbers_at(j, 3)));
        let d = difference("in"@, bracketed(t@.inbound), bracketed(list_or_empty(numbers_at(j, 3))));
        all = all + text_if(!score.inbound, d);
        assert(texts(bad@) =~= all);
    }
    let outbound = match get_numbers(row, 4) {
        Some(v) => v,
        None => Vec::new(),
    };
    if !score.outbound {
        push_difference(
            &mut bad,
            "out",
            write_list(&t.outbound).as_str(),
            write_list(&outbound).as_str(),
        );
    }
    proof {
        assert(outbound@ =~= list_or_empty(numbers_at(j, 4)));
        let d = difference(
            "out"@,
            bracketed(t@.outbound),
            bracketed(list_or_empty(numbers_at(j, 4))),
        );
        all = all + text_if(!score.outbound, d);
        assert(texts(bad@) =~= all);
    }
    let class = match get_text(row, 5) {
        Some(s) => s,
        None => String::new(),
    };
    if !score.class_name {
        push_difference(
            &mut bad,
            "class_name",
            token_class_name(t.editor.as_str()).as_str(),
            quote(class.as_str()).as_str(),
        );
    }
    proof {
        let d = difference(
            "class_name"@,
            class_name_of(t@.editor),
            quoted(text_or_empty(text_at(j, 5))),
        );
        all = all + text_if(!score.class_name, d);
        assert(texts(bad@) =~= all);
        assert(all =~= differences(t@, j, score));
    }
    let head = concat3("token[", decimal_text(i as u64).as_str(), "] (");
    let named = concat3(head.as_str(), t.str.as_str(), "): ");
    concat_text(named.as_str(), join_text(&bad, "; ").as_str())
}

/// How many tokens and revisions agree with the captured ones, and in which fields.
#[derive(Debug)]
pub struct FixtureMetrics {
    pub tokens_total: usize,
    pub tokens_pass: usize,
    pub field_str_pass: usize,
    pub field_o_rev_id_pass: usize,
    pub field_in_pass: usize,
    pub field_out_pass: usize,
    pub field_conflict_pass: usize,
    pub field_class_pass: usize,
    pub field_age_pass: usize,
    pub age_checked: usize,
    pub revisions_total: usize,
    pub revisions_pass: usize,
    pub biggest_conflict_matches: bool,
    pub first_token_diff: Option<String>,
    pub first_rev_diff: Option<String>,
}

/// How many of the first `k` are such.
pub open spec fn count_such(such: spec_fn(int) -> bool, k: int) -> int
    decreases k,
{
    if k <= 0 {
        0
    } else {
        count_such(such, k - 1) + (if such(k - 1) {
            1int
        } else {
            0
        })
    }
}

proof fn lemma_count_bound(such: spec_fn(int) -> bool, k: int)
    requires
        0 <= k,
    ensures
        0 <= count_such(such, k) <= k,
    decreases k,
{
    if k > 0 {
        lemma_count_bound(such, k - 1);
    }
}

/// The items of a captured token.
pub open spec fn row_of(v: Json) -> Seq<Json> {
    match v.list() {
        Some(items) => items,
        None => Seq::empty(),
    }
}

/// Whether the ages of the `i`th tokens agree, where they are compared.
pub open spec fn age_at(ages: Option<Seq<bool>>, i: int) -> bool {
    ages is Some && ages->0[i]
}

/// In which fields the `i`th token agrees with the captured one.
pub open spec fn score_at(
    ts: Seq<ColorTokenView>,
    rows: Seq<Json>,
    ages: Option<Seq<bool>>,
    i: int,
) -> TokenScore {
    token_score(ts[i], row_of(rows[i]), age_at(ages, i))
}

/// How the first of the tokens from `i` up to `n` that differs from the captured one
/// does so.
pub open spec fn first_difference(
    ts: Seq<ColorTokenView>,
    rows: Seq<Json>,
    ages: Option<Seq<bool>>,
    i: int,
    n: int,
) -> Option<Seq<char>>
    decreases n - i,
{
    if i >= n {
        None
    } else {
        let s = score_at(ts, rows, ages, i);
        if s.passes() {
            first_difference(ts, rows, ages, i + 1, n)
        } else {
            Some(token_difference(i, ts[i], row_of(rows[i]), s))
        }
    }
}

/// What comparing tokens with captured ones finds. Tokens are compared as far as there
/// are both.
pub open spec fn tokens_compared(
    m: FixtureMetrics,
    ts: Seq<ColorTokenView>,
    rows: Seq<Json>,
    ages: Option<Seq<bool>>,
) -> bool {
    let n = if ts.len() < rows.len() {
        ts.len() as int
    } else {
        rows.len() as int
    };
    let at = |i: int| score_at(ts, rows, ages, i);
    &&& m.tokens_total == rows.len()
    &&& m.tokens_pass == count_such(|i: int| at(i).passes(), n)
    &&& m.field_str_pass == count_such(|i: int| at(i).str, n)
    &&& m.field_o_rev_id_pass == count_such(|i: int| at(i).o_rev_id, n)
    &&& m.field_in_pass == count_such(|i: int| at(i).inbound, n)
    &&& m.field_out_pass == count_such(|i: int| at(i).outbound, n)
    &&& m.field_conflict_pass == count_such(|i: int| at(i).conflict_score, n)
    &&& m.field_class_pass == count_such(|i: int| at(i).class_name, n)
    &&& m.age_checked == (if ages is Some {
        n
    } else {
        0
    })
    &&& m.field_age_pass == (if ages is Some {
        count_such(|i: int| at(i).age, n)
    } else {
        0
    })
    &&& opt_text(m.first_token_diff) == (if ts.len() != rows.len() {
        Some(
            "token count differs: rust="@ + decimal(ts.len()) + " prod="@ + decimal(rows.len()),
        )
    } else {
        first_difference(ts, rows, ages, 0, n)
    })
}

/// The model of the ages that are compared.
pub open spec fn ages_view(ages: Option<&Vec<bool>>) -> Option<Seq<bool>> {
    match ages {
        Some(v) => Some(v@),
        None => None,
    }
}

/// One more where it is so.
fn plus(n: usize, so: bool, Ghost(k): Ghost<int>) -> (r: usize)
    requires
        n <= k < usize::MAX,
    ensures
        r == n + (if so {
            1int
        } else {
            0
        }),
{
    if so {
        n + 1
    } else {
        n
    }
}

/// Compares tokens with captured ones, each of which is a list. `ages` says of each
/// token whether its age agrees, where ages are compared.
#[verifier::rlimit(60)]
pub fn compare_tokens(
    tokens: &Vec<WhoColorToken>,
    captured: &Vec<JsonValue>,
    ages: Option<&Vec<bool>>,
) -> (r: FixtureMetrics)
    requires
        forall|i: int|
            0 <= i < captured@.len() && i < tokens@.len() ==> (#[trigger] captured@[i])@ is List,
        ages is Some ==> ages->0@.len() >= tokens@.len(),
    ensures
        tokens_compared(r, color_tokens(tokens@), jsons(captured@), ages_view(ages)),
        r.revisions_total == 0,
        r.revisions_pass == 0,
        !r.biggest_conflict_matches,
        r.first_rev_diff is None,
{
    let ghost ts = color_tokens(tokens@);
    let ghost rows = jsons(captured@);
    let ghost av = ages_view(ages);
    let ghost at = |i: int| score_at(ts, rows, av, i);
    let n: usize = if tokens.len() < captured.len() {
        tokens.len()
    } else {
        captured.len()
    };
    let same = tokens.len() == captured.len();
    let mut diff: Option<String> = None;
    if !same {
        let head = concat3(
            "token count differs: rust=",
            decimal_text(tokens.len() as u64).as_str(),
            " prod=",
        );
        diff = Some(concat_text(head.as_str(), decimal_text(captured.len() as u64).as_str()));
    }
    let ghost given = opt_text(diff);
    let mut pass: usize = 0;
    let mut f_str: usize = 0;
    let mut f_rev: usize = 0;
    let mut f_in: usize = 0;
    let mut f_out: usize = 0;
    let mut f_conflict: usize = 0;
    let mut f_class: usize = 0;
    let mut f_age: usize = 0;
    let mut checked: usize = 0;
    let mut i: usize = 0;
    while i < n
        invariant
            n <= tokens@.len(),
            n <= captured@.len(),
            i <= n,
            ts == color_tokens(tokens@),
            rows == jsons(captured@),
            av == ages_view(ages),
            at == (|i: int| score_at(ts, rows, av, i)),
            forall|i: int|
                0 <= i < captured@.len() && i < tokens@.len() ==> (#[trigger] captured@[i])@ is List,
            ages is Some ==> ages->0@.len() >= tokens@.len(),
            pass == count_such(|i: int| at(i).passes(), i as int),
            f_str == count_such(|i: int| at(i).str, i as int),
            f_rev == count_such(|i: int| at(i).o_rev_id, i as int),
            f_in == count_such(|i: int| at(i).inbound, i as int),
            f_out == count_such(|i: int| at(i).outbound, i as int),
            f_conflict == count_such(|i: int| at(i).conflict_score, i as int),
            f_class == count_such(|i: int| at(i).class_name, i as int),
            f_age == (if av is Some {
                count_such(|i: int| at(i).age, i as int)
            } else {
                0
            }),
            checked == (if av is Some {
                i as int
            } else {
                0
            }),
            given is Some ==> opt_text(diff) == given,
            given is None ==> (match diff {
                Some(d) => first_difference(ts, rows, av, 0, n as int) == Some(d@),
                None => first_difference(ts, rows, av, 0, n as int) == first_difference(
                    ts,
                    rows,
                    av,
                    i as int,
                    n as int,
                ),
            }),
        decreases n - i,
    {
        proof {
            assert(ts[i as int] == tokens@[i as int]@);
            assert(rows[i as int] == captured@[i as int]@);
            assert(captured@[i as int]@ is List);
            lemma_count_bound(|i: int| at(i).passes(), i as int);
            lemma_count_bound(|i: int| at(i).str, i as int);
            lemma_count_bound(|i: int| at(i).o_rev_id, i as int);
            lemma_count_bound(|i: int| at(i).inbound, i as int);
            lemma_count_bound(|i: int| at(i).outbound, i as int);
            lemma_count_bound(|i: int| at(i).conflict_score, i as int);
            lemma_count_bound(|i: int| at(i).class_name, i as int);
            lemma_count_bound(|i: int| at(i).age, i as int);
        }
        if let Some(row) = captured[i].as_array() {
            let age = match ages {
                Some(v) => v[i],
                None => false,
            };
            let score = score_one_token(&tokens[i], row, age);
            proof {
                assert(score == at(i as int));
            }
            f_str = plus(f_str, score.str, Ghost(i as int));
            f_rev = plus(f_rev, score.o_rev_id, Ghost(i as int));
            f_in = plus(f_in, score.inbound, Ghost(i as int));
            f_out = plus(f_out, score.outbound, Ghost(i as int));
            f_conflict = plus(f_conflict, score.conflict_score, Ghost(i as int));
            f_class = plus(f_class, score.class_name, Ghost(i as int));
            if ages.is_some() {
                checked = checked + 1;
                f_age = plus(f_age, score.age, Ghost(i as int));
            }
            if score.all_required_pass() {
                pass = pass + 1;
            } else if diff.is_none() {
                diff = Some(format_token_diff(i, &tokens[i], row, score));
            }
        }
        i = i + 1;
    }
    FixtureMetrics {
        tokens_total: captured.len(),
        tokens_pass: pass,
        field_str_pass: f_str,
        field_o_rev_id_pass: f_rev,
        field_in_pass: f_in,
        field_out_pass: f_out,
        field_conflict_pass: f_conflict,
        field_class_pass: f_class,
        field_age_pass: f_age,
        age_checked: checked,
        revisions_total: 0,
        revisions_pass: 0,
        biggest_conflict_matches: false,
        first_token_diff: diff,
        first_rev_diff: None,
    }
}

/// Whether a revision agrees with a captured one: in its time, in the revision before
/// it, and in what names its editor.
pub open spec fn revision_agreement(r: ColorRevisionView, row: Seq<Json>) -> (bool, bool, bool) {
    (
        text_at(row, 0) == Some(r.timestamp),
        number_at(row, 1) == Some(r.parent_rev_id),
        text_at(row, 2) == Some(class_name_of(r.editor)),
    )
}

/// Whether a revision agrees with a captured one in everything.
pub open spec fn revision_agrees(r: ColorRevisionView, row: Seq<Json>) -> bool {
    let a = revision_agreement(r, row);
    a.0 && a.1 && a.2
}

/// A truth value as it is written.
pub open spec fn truth_text(b: bool) -> Seq<char> {
    if b {
        "true"@
    } else {
        "false"@
    }
}

fn write_truth(b: bool) -> (r: String)
    ensures
        r@ == truth_text(b),
{
    if b {
        "true".to_owned()
    } else {
        "false".to_owned()
    }
}

/// How a revision differs from a captured one.
pub open spec fn revision_difference(id: u64, r: ColorRevisionView, row: Seq<Json>) -> Seq<char> {
    let a = revision_agreement(r, row);
    "rev "@ + decimal(id as nat) + ": ts_match="@ + truth_text(a.0) + " parent_match="@
        + truth_text(a.1) + " class_match="@ + truth_text(a.2) + "; rust=("@ + r.timestamp + ", "@
        + decimal(r.parent_rev_id as nat) + ", "@ + class_name_of(r.editor) + ") prod=("@ + quoted(
        text_or_empty(text_at(row, 0)),
    ) + ", "@ + decimal(number_or_zero(number_at(row, 1)) as nat) + ", "@ + quoted(
        text_or_empty(text_at(row, 2)),
    ) + ")"@
}

/// The captured revisions by id as it is written.
pub open spec fn row_views(m: Map<Seq<char>, Vec<JsonValue>>) -> Map<Seq<char>, Seq<Json>> {
    m.map_values(|v: Vec<JsonValue>| jsons(v@))
}

/// Whether a revision is among the captured ones and agrees.
pub open spec fn revision_found(r: (u64, ColorRevisionView), rows: Map<Seq<char>, Seq<Json>>) -> bool {
    let key = decimal(r.0 as nat);
    rows.contains_key(key) && revision_agrees(r.1, rows[key])
}

/// How the first of the revisions from the `k`th on that is not among the captured
/// ones, or differs, does so.
pub open spec fn first_revision_difference(
    revs: Seq<(u64, ColorRevisionView)>,
    rows: Map<Seq<char>, Seq<Json>>,
    k: int,
) -> Option<Seq<char>>
    decreases revs.len() - k,
{
    if k < 0 || k >= revs.len() {
        None
    } else {
        let key = decimal(revs[k].0 as nat);
        if !rows.contains_key(key) {
            Some("rust rev "@ + key + " absent from prod"@)
        } else if revision_agrees(revs[k].1, rows[key]) {
            first_revision_difference(revs, rows, k + 1)
        } else {
            Some(revision_difference(revs[k].0, revs[k].1, rows[key]))
        }
    }
}

/// How a revision differs from a captured one.
#[verifier::rlimit(30)]
fn format_revision_diff(id: u64, r: &WhoColorRevision, row: &Vec<JsonValue>) -> (s: String)
    ensures
        s@ == revision_difference(id, r@, jsons(row@)),
{
    let class = token_class_name(r.editor.as_str());
    let time = get_text(row, 0);
    let parent = get_number(row, 1);
    let name = get_text(row, 2);
    let ts_match = is_text(&time, r.timestamp.as_str());
    let parent_match = match parent {
        Some(n) => n == r.parent_rev_id,
        None => false,
    };
    let class_match = is_text(&name, class.as_str());
    let shown_time = match time {
        Some(s) => s,
        None => String::new(),
    };
    let shown_parent = match parent {
        Some(n) => n,
        None => 0,
    };
    let shown_name = match name {
        Some(s) => s,
        None => String::new(),
    };
    let a = concat3("rev ", decimal_text(id).as_str(), ": ts_match=");
    let b = concat3(a.as_str(), write_truth(ts_match).as_str(), " parent_match=");
    let c = concat3(b.as_str(), write_truth(parent_match).as_str(), " class_match=");
    let d = concat3(c.as_str(), write_truth(class_match).as_str(), "; rust=(");
    let e = concat3(d.as_str(), r.timestamp.as_str(), ", ");
    let f = concat3(e.as_str(), decimal_text(r.parent_rev_id).as_str(), ", ");
    let g = concat3(f.as_str(), class.as_str(), ") prod=(");
    let h = concat3(g.as_str(), quote(shown_time.as_str()).as_str(), ", ");
    let i = concat3(h.as_str(), decimal_text(shown_parent).as_str(), ", ");
    concat3(i.as_str(), quote(shown_name.as_str()).as_str(), ")")
}

/// Compares the stored revisions with captured ones: how many there are, how many
/// agree, and how the first that does not differs.
pub fn compare_revisions(
    data: &WhoColorData,
    captured: &StringHashMap<Vec<JsonValue>>,
) -> (r: (usize, usize, Option<String>))
    ensures
        r.0 == captured@.dom().len(),
        r.1 == count_such(
            |i: int| revision_found(data@.revisions[i], row_views(captured@)),
            data@.revisions.len() as int,
        ),
        opt_text(r.2) == first_revision_difference(data@.revisions, row_views(captured@), 0),
{
    let ghost revs = data@.revisions;
    let ghost rows = row_views(captured@);
    let ghost such = |i: int| revision_found(revs[i], rows);
    let n: usize = data.revisions.len();
    let mut pass: usize = 0;
    let mut diff: Option<String> = None;
    let mut k: usize = 0;
    while k < n
        invariant
            n == data.revisions@.len(),
            k <= n,
            revs == data@.revisions,
            rows == row_views(captured@),
            such == (|i: int| revision_found(revs[i], rows)),
            pass == count_such(such, k as int),
            match diff {
                Some(d) => first_revision_difference(revs, rows, 0) == Some(d@),
                None => first_revision_difference(revs, rows, 0) == first_revision_difference(
                    revs,
                    rows,
                    k as int,
                ),
            },
        decreases n - k,
    {
        let id: u64 = data.revisions[k].0;
        let rev = &data.revisions[k].1;
        proof {
            assert(revs[k as int] == (id, rev@));
            lemma_count_bound(such, k as int);
        }
        let key = decimal_text(id);
        match captured.get(key.as_str()) {
            None => {
                if diff.is_none() {
                    diff = Some(concat3("rust rev ", key.as_str(), " absent from prod"));
                }
            },
            Some(row) => {
                proof {
                    assert(rows[key@] == jsons(row@));
                }
                let class = token_class_name(rev.editor.as_str());
                let parent_match = match get_number(row, 1) {
                    Some(p) => p == rev.parent_rev_id,
                    None => false,
                };
                if is_text(&get_text(row, 0), rev.timestamp.as_str()) && parent_match && is_text(
                    &get_text(row, 2),
                    class.as_str(),
                ) {
                    pass = pass + 1;
                } else if diff.is_none() {
                    diff = Some(format_revision_diff(id, rev, row));
                }
            },
        }
        k = k + 1;
    }
    (captured.len(), pass, diff)
}

impl FixtureMetrics {
    /// Whether everything agrees.
    pub open spec fn agrees(self) -> bool {
        self.biggest_conflict_matches && self.tokens_pass == self.tokens_total
            && self.revisions_pass == self.revisions_total
    }

    /// Whether everything agrees.
    pub fn all_pass(&self) -> (r: bool)
        ensures
            r == self.agrees(),
    {
        self.biggest_conflict_matches && self.tokens_pass == self.tokens_total
            && self.revisions_pass == self.revisions_total
    }
}

/// Why a captured response cannot be compared.
#[derive(Debug, Clone, Copy, PartialEq, Eq, Structural)]
pub enum CaptureFault {
    /// It is no success.
    Unsuccessful,
    /// It is of another revision or page than it says.
    Mismatch,
}

/// Whether a captured response can be compared: it is a success, and it is of the
/// revision or page that was asked for.
pub fn check_capture(success: bool, expected: u64, found: u64) -> (r: Result<(), CaptureFault>)
    ensures
        r == (if !success {
            Err::<(), CaptureFault>(CaptureFault::Unsuccessful)
        } else if expected != found {
            Err::<(), CaptureFault>(CaptureFault::Mismatch)
        } else {
            Ok::<(), CaptureFault>(())
        }),
{
    if !success {
        Err(CaptureFault::Unsuccessful)
    } else if expected != found {
        Err(CaptureFault::Mismatch)
    } else {
        Ok(())
    }
}

/// Whether a page is among those asked for: every one where nothing is asked for, one
/// whose language and id begin with what is asked for otherwise.
pub open spec fn page_asked_for(filters: Seq<Seq<char>>, key: Seq<char>, k: int) -> bool
    decreases filters.len() - k,
{
    if k < 0 || k >= filters.len() {
        false
    } else {
        filters[k].is_prefix_of(key) || page_asked_for(filters, key, k + 1)
    }
}

/// Whether a page is among those asked for.
pub fn is_asked_for(filters: &Vec<String>, key: &str) -> (r: bool)
    ensures
        r == (filters@.len() == 0 || page_asked_for(texts(filters@), key@, 0)),
{
    if filters.len() == 0 {
        return true;
    }
    let ghost fs = texts(filters@);
    let c = chars_of(key);
    let mut k: usize = 0;
    while k < filters.len()
        invariant
            k <= filters@.len(),
            filters@.len() > 0,
            fs == texts(filters@),
            c@ == key@,
            page_asked_for(fs, key@, k as int) == page_asked_for(fs, key@, 0),
        decreases filters@.len() - k,
    {
        proof {
            assert(fs[k as int] == filters@[k as int]@);
        }
        if begins_with(&c, &chars_of(filters[k].as_str())) {
            return true;
        }
        k = k + 1;
    }
    false
}

/// The sum of the first `k` numbers.
pub open spec fn added_up(counts: Seq<u64>, k: int) -> int
    decreases k,
{
    if k <= 0 {
        0
    } else {
        added_up(counts, k - 1) + counts[k - 1]
    }
}

/// How many tokens a captured response holds, of which each entry holds so many; the
/// most that can be counted where there are more.
pub fn token_total(counts: &[u64]) -> (r: u64)
    ensures
        r == (if added_up(counts@, counts@.len() as int) > u64::MAX {
            u64::MAX as int
        } else {
            added_up(counts@, counts@.len() as int)
        }),
{
    let mut total: u64 = 0;
    let mut k: usize = 0;
    while k < counts.len()
        invariant
            k <= counts@.len(),
            0 <= added_up(counts@, k as int),
            total == (if added_up(counts@, k as int) > u64::MAX {
                u64::MAX as int
            } else {
                added_up(counts@, k as int)
            }),
        decreases counts@.len() - k,
    {
        total = total.saturating_add(counts[k]);
        k = k + 1;
    }
    total
}

/// How many captured responses there are, of how many revisions and tokens.
#[derive(Debug, Clone, Copy, PartialEq, Eq, Structural)]
pub struct Tally {
    pub fixtures: u64,
    pub revisions_total: u64,
    pub tokens_total: u64,
    pub fixtures_failed_to_load: u64,
}

/// A sum, as far as there is.
pub open spec fn sum_of(a: u64, b: u64) -> u64 {
    if a + b > u64::MAX {
        u64::MAX
    } else {
        (a + b) as u64
    }
}

impl Tally {
    /// Nothing counted yet.
    pub fn new() -> (r: Self)
        ensures
            r == (Tally {
                fixtures: 0,
                revisions_total: 0,
                tokens_total: 0,
                fixtures_failed_to_load: 0,
            }),
    {
        Tally { fixtures: 0, revisions_total: 0, tokens_total: 0, fixtures_failed_to_load: 0 }
    }

    /// Counts one that cannot be loaded.
    pub fn add_load_failure(self) -> (r: Self)
        ensures
            r == (Tally {
                fixtures: sum_of(self.fixtures, 1),
                fixtures_failed_to_load: sum_of(self.fixtures_failed_to_load, 1),
                ..self
            }),
    {
        let mut t = self;
        t.fixtures = t.fixtures.saturating_add(1);
        t.fixtures_failed_to_load = t.fixtures_failed_to_load.saturating_add(1);
        t
    }

    /// Counts one of so many revisions and tokens.
    pub fn add_fixture(self, rev_count: u64, token_count: u64) -> (r: Self)
        ensures
            r == (Tally {
                fixtures: sum_of(self.fixtures, 1),
                revisions_total: sum_of(self.revisions_total, rev_count),
                tokens_total: sum_of(self.tokens_total, token_count),
                ..self
            }),
    {
        let mut t = self;
        t.fixtures = t.fixtures.saturating_add(1);
        t.revisions_total = t.revisions_total.saturating_add(rev_count);
        t.tokens_total = t.tokens_total.saturating_add(token_count);
        t
    }
}

} // verus!
