//! The names of users.
use crate::json::{
    array_in, field_in, get_in, is_true, jsons, list_in, str_in, text_in, true_in, u64_in,
    unsigned_in, Json, JsonValue,
};
use crate::mwclient::{
    push_param, query, query_head, start_query, MwError, MwErrorView, MW_USERS_BATCH_SIZE,
};
use crate::text::{decimal, decimal_text, join_text, joined, texts};
use std::collections::HashMap;
use vstd::prelude::*;

verus! {

broadcast use vstd::std_specs::hash::group_hash_axioms;

/// The user that an entry names; nothing where it has no id or no name, or says that
/// the user is missing.
pub open spec fn user_entry(u: Json) -> Option<(u64, Seq<char>)> {
    match unsigned_in(u.field("userid"@)) {
        None => None,
        Some(id) => if is_true(u.field("missing"@)) {
            None
        } else {
            match text_in(u.field("name"@)) {
                Some(name) => Some((id, name)),
                None => None,
            }
        },
    }
}

/// The users that the entries from the `k`th on name.
pub open spec fn users_from(entries: Seq<Json>, k: int) -> Seq<(u64, Seq<char>)>
    decreases entries.len() - k,
{
    if k < 0 || k >= entries.len() {
        Seq::empty()
    } else {
        match user_entry(entries[k]) {
            Some(u) => seq![u] + users_from(entries, k + 1),
            None => users_from(entries, k + 1),
        }
    }
}

/// The users that an answer names.
pub open spec fn users_in(body: Json) -> Result<Seq<(u64, Seq<char>)>, MwErrorView> {
    match list_in(field_in(body.field("query"@), "users"@)) {
        Some(entries) => Ok(users_from(entries, 0)),
        None => Err(MwErrorView::Shape("missing query.users array"@)),
    }
}

/// The models of several users.
pub open spec fn user_views(v: Seq<(u64, String)>) -> Seq<(u64, Seq<char>)> {
    v.map_values(|u: (u64, String)| (u.0, u.1@))
}

/// The user that an entry names.
fn parse_user(u: &JsonValue) -> (r: Option<(u64, String)>)
    ensures
        match r {
            Some((id, name)) => user_entry(u@) == Some((id, name@)),
            None => user_entry(u@) is None,
        },
{
    match u64_in(u.get("userid")) {
        None => None,
        Some(id) => if true_in(u.get("missing")) {
            None
        } else {
            match str_in(u.get("name")) {
                Some(name) => Some((id, name.to_owned())),
                None => None,
            }
        },
    }
}

/// The users that an answer names.
pub fn parse_users_response(body: &JsonValue) -> (r: Result<Vec<(u64, String)>, MwError>)
    ensures
        match r {
            Ok(v) => users_in(body@) == Ok::<Seq<(u64, Seq<char>)>, MwErrorView>(user_views(v@)),
            Err(e) => users_in(body@) == Err::<Seq<(u64, Seq<char>)>, MwErrorView>(e@),
        },
{
    let entries = match array_in(get_in(body.get("query"), "users")) {
        Some(v) => v,
        None => {
            return Err(MwError::shape("missing query.users array"));
        },
    };
    let ghost es = jsons(entries@);
    let ghost goal = users_from(es, 0);
    let mut out: Vec<(u64, String)> = Vec::new();
    let mut k: usize = 0;
    proof {
        assert(user_views(out@) + goal =~= goal);
    }
    while k < entries.len()
        invariant
            k <= entries@.len(),
            es == jsons(entries@),
            user_views(out@) + users_from(es, k as int) == goal,
        decreases entries@.len() - k,
    {
        let ghost before = user_views(out@);
        let ghost rest = users_from(es, k + 1);
        proof {
            assert(es[k as int] == entries@[k as int]@);
        }
        if let Some((id, name)) = parse_user(&entries[k]) {
            out.push((id, name));
            proof {
                assert(user_views(out@) =~= before.push((id, name@)));
                assert(user_views(out@) + rest =~= before + (seq![(id, name@)] + rest));
            }
        }
        k = k + 1;
    }
    proof {
        assert(user_views(out@) =~= goal);
    }
    Ok(out)
}

/// Each number is larger than the one before it.
pub open spec fn increasing(s: Seq<u64>) -> bool {
    forall|i: int, j: int| 0 <= i < j < s.len() ==> s[i] < s[j]
}

/// `s` holds the numbers of `t`, each once, in order.
pub open spec fn sorted_set(s: Seq<u64>, t: Seq<u64>) -> bool {
    increasing(s) && s.to_set() == t.to_set()
}

/// The numbers of `s` in order, each once.
fn sort_dedup(ids: &[u64]) -> (r: Vec<u64>)
    ensures
        sorted_set(r@, ids@),
{
    let mut out: Vec<u64> = Vec::new();
    let mut k: usize = 0;
    proof {
        assert(out@.to_set() =~= ids@.take(0).to_set());
    }
    while k < ids.len()
        invariant
            k <= ids@.len(),
            increasing(out@),
            out@.to_set() == ids@.take(k as int).to_set(),
        decreases ids@.len() - k,
    {
        let id: u64 = ids[k];
        let ghost before = out@;
        let mut at: usize = 0;
        while at < out.len() && out[at] < id
            invariant
                at <= out@.len(),
                out@ == before,
                forall|i: int| 0 <= i < at ==> out@[i] < id,
            decreases out@.len() - at,
        {
            at = at + 1;
        }
        proof {
            assert(ids@.take(k + 1) =~= ids@.take(k as int).push(id));
            lemma_push_set(ids@.take(k as int), id);
        }
        if at < out.len() && out[at] == id {
            proof {
                assert(before.contains(before[at as int]));
                assert(before.to_set().insert(id) =~= before.to_set());
            }
        } else {
            out.insert(at, id);
            proof {
                lemma_insert_set(before, at as int, id);
                assert forall|i: int, j: int| 0 <= i < j < out@.len() implies out@[i] < out@[j] by {
                    let i0 = if i < at {
                        i
                    } else {
                        i - 1
                    };
                    let j0 = if j < at {
                        j
                    } else {
                        j - 1
                    };
                    if i != at && j != at {
                        assert(before[i0] < before[j0]);
                    } else if i == at {
                        if at < before.len() && j0 > at {
                            assert(before[at as int] < before[j0]);
                        }
                    }
                }
            }
        }
        k = k + 1;
    }
    proof {
        assert(ids@.take(k as int) =~= ids@);
    }
    out
}

proof fn lemma_push_set(s: Seq<u64>, x: u64)
    ensures
        s.push(x).to_set() == s.to_set().insert(x),
{
    let a = s.push(x).to_set();
    let b = s.to_set().insert(x);
    assert forall|y: u64| a.contains(y) implies b.contains(y) by {
        let i = choose|i: int| 0 <= i < s.push(x).len() && s.push(x)[i] == y;
        if i < s.len() {
            assert(s[i] == y);
        }
    }
    assert forall|y: u64| b.contains(y) implies a.contains(y) by {
        if y == x {
            assert(s.push(x)[s.len() as int] == y);
        } else {
            let i = choose|i: int| 0 <= i < s.len() && s[i] == y;
            assert(s.push(x)[i] == y);
        }
    }
    assert(a =~= b);
}

proof fn lemma_insert_set(s: Seq<u64>, at: int, x: u64)
    requires
        0 <= at <= s.len(),
    ensures
        s.insert(at, x).to_set() == s.to_set().insert(x),
{
    let a = s.insert(at, x).to_set();
    let b = s.to_set().insert(x);
    assert forall|y: u64| a.contains(y) implies b.contains(y) by {
        let t = s.insert(at, x);
        let i = choose|i: int| 0 <= i < t.len() && t[i] == y;
        if i < at {
            assert(s[i] == y);
        } else if i > at {
            assert(s[i - 1] == y);
        }
    }
    assert forall|y: u64| b.contains(y) implies a.contains(y) by {
        if y == x {
            assert(s.insert(at, x)[at] == y);
        } else {
            let i = choose|i: int| 0 <= i < s.len() && s[i] == y;
            if i < at {
                assert(s.insert(at, x)[i] == y);
            } else {
                assert(s.insert(at, x)[i + 1] == y);
            }
        }
    }
    assert(a =~= b);
}

/// The numbers of several lists one after the other.
pub open spec fn flat(v: Seq<Seq<u64>>) -> Seq<u64>
    decreases v.len(),
{
    if v.len() == 0 {
        Seq::empty()
    } else {
        flat(v.drop_last()) + v.last()
    }
}

/// The models of several lists.
pub open spec fn lists(v: Seq<Vec<u64>>) -> Seq<Seq<u64>> {
    v.map_values(|x: Vec<u64>| x@)
}

/// Every list but the last is full, and none is empty.
pub open spec fn packed(v: Seq<Seq<u64>>) -> bool {
    forall|i: int|
        0 <= i < v.len() ==> 0 < (#[trigger] v[i]).len() <= MW_USERS_BATCH_SIZE && (i < v.len() - 1
            ==> v[i].len() == MW_USERS_BATCH_SIZE)
}

/// The user ids of each request: in order, each once, as many to a request as it
/// takes.
pub fn user_batches(user_ids: &[u64]) -> (r: Vec<Vec<u64>>)
    ensures
        sorted_set(flat(lists(r@)), user_ids@),
        packed(lists(r@)),
{
    let unique = sort_dedup(user_ids);
    let n: usize = unique.len();
    let mut out: Vec<Vec<u64>> = Vec::new();
    let mut k: usize = 0;
    proof {
        assert(flat(lists(out@)) =~= unique@.take(0));
    }
    while k < n
        invariant
            n == unique@.len(),
            k <= n,
            flat(lists(out@)) == unique@.take(k as int),
            packed(lists(out@)),
            k < n ==> (forall|i: int|
                0 <= i < out@.len() ==> (#[trigger] lists(out@)[i]).len() == MW_USERS_BATCH_SIZE),
        decreases n - k,
    {
        let ghost before = lists(out@);
        let ghost from = k as int;
        let mut batch: Vec<u64> = Vec::new();
        while k < n && batch.len() < MW_USERS_BATCH_SIZE
            invariant
                n == unique@.len(),
                0 <= from <= k <= n,
                batch@ == unique@.subrange(from, k as int),
                batch@.len() <= MW_USERS_BATCH_SIZE,
            decreases n - k,
        {
            batch.push(unique[k]);
            proof {
                assert(batch@ =~= unique@.subrange(from, k + 1));
            }
            k = k + 1;
        }
        let ghost b = batch@;
        out.push(batch);
        proof {
            let now = lists(out@);
            assert(now =~= before.push(b));
            assert(now.drop_last() =~= before);
            assert(flat(now) =~= unique@.take(k as int));
            assert forall|i: int| 0 <= i < now.len() implies 0 < (#[trigger] now[i]).len()
                <= MW_USERS_BATCH_SIZE && (i < now.len() - 1 ==> now[i].len()
                == MW_USERS_BATCH_SIZE) by {
                if i < before.len() {
                    assert(now[i] == before[i]);
                }
            }
            assert(k < n ==> (forall|i: int|
                0 <= i < now.len() ==> (#[trigger] now[i]).len() == MW_USERS_BATCH_SIZE)) by {
                if k < n {
                    assert forall|i: int| 0 <= i < now.len() implies (#[trigger] now[i]).len()
                        == MW_USERS_BATCH_SIZE by {
                        if i < before.len() {
                            assert(now[i] == before[i]);
                        }
                    }
                }
            }
        }
    }
    proof {
        assert(unique@.take(n as int) =~= unique@);
    }
    out
}

/// Numbers as they are written.
pub open spec fn decimals(ids: Seq<u64>) -> Seq<Seq<char>> {
    ids.map_values(|n: u64| decimal(n as nat))
}

/// What is asked to learn the names of users.
pub open spec fn users_query(ids: Seq<u64>) -> Seq<(Seq<char>, Seq<char>)> {
    query_head() + seq![("list"@, "users"@), ("ususerids"@, joined(decimals(ids), "|"@))]
}

/// What is asked to learn the names of users.
pub fn users_params(ids: &Vec<u64>) -> (r: Vec<(String, String)>)
    ensures
        query(r@) == users_query(ids@),
{
    let mut parts: Vec<String> = Vec::new();
    let mut k: usize = 0;
    while k < ids.len()
        invariant
            k <= ids@.len(),
            parts@.len() == k,
            forall|i: int| 0 <= i < k ==> (#[trigger] parts@[i])@ == decimal(ids@[i] as nat),
        decreases ids@.len() - k,
    {
        parts.push(decimal_text(ids[k]));
        k = k + 1;
    }
    proof {
        assert(texts(parts@) =~= decimals(ids@));
    }
    let mut params = start_query();
    push_param(&mut params, "list", "users");
    push_param(&mut params, "ususerids", join_text(&parts, "|").as_str());
    proof {
        assert(query(params@) =~= users_query(ids@));
    }
    params
}

/// The names known, once those of several users are learned, from the `k`th on.
pub open spec fn names_learned(
    names: Map<u64, Seq<char>>,
    users: Seq<(u64, Seq<char>)>,
    k: int,
) -> Map<u64, Seq<char>>
    decreases users.len() - k,
{
    if k < 0 || k >= users.len() {
        names
    } else {
        names_learned(names.insert(users[k].0, users[k].1), users, k + 1)
    }
}

/// The names that a map holds.
pub open spec fn name_views(m: Map<u64, String>) -> Map<u64, Seq<char>> {
    m.map_values(|s: String| s@)
}

/// Learns the names of the users that an answer names.
pub fn learn_names(names: &mut HashMap<u64, String>, body: &JsonValue) -> (r: Result<(), MwError>)
    ensures
        match r {
            Ok(_) => users_in(body@) is Ok && name_views(final(names)@) == names_learned(
                name_views(old(names)@),
                users_in(body@)->Ok_0,
                0,
            ),
            Err(e) => users_in(body@) == Err::<Seq<(u64, Seq<char>)>, MwErrorView>(e@) && final(names)@
                == old(names)@,
        },
{
    let users = match parse_users_response(body) {
        Ok(v) => v,
        Err(e) => {
            return Err(e);
        },
    };
    let ghost us = user_views(users@);
    let ghost goal = names_learned(name_views(names@), us, 0);
    let mut k: usize = 0;
    while k < users.len()
        invariant
            k <= users@.len(),
            us == user_views(users@),
            names_learned(name_views(names@), us, k as int) == goal,
        decreases users@.len() - k,
    {
        let ghost before = names@;
        let id: u64 = users[k].0;
        let name = users[k].1.clone();
        names.insert(id, name);
        proof {
            assert(us[k as int] == (users@[k as int].0, users@[k as int].1@));
            assert(name_views(names@) =~= name_views(before).insert(id, us[k as int].1));
        }
        k = k + 1;
    }
    Ok(())
}

} // verus!
