//! The queries that stand behind the question mark of a link.

use vstd::prelude::*;
use vstd::string::*;
use crate::dict::Dict;
use crate::json::{last_value, pair_views};
use crate::text::{split_once, split_once_at};

verus! {

/// The pairs that a query holds.
pub uninterp spec fn decoded_pairs(query: Seq<char>) -> Seq<(Seq<char>, Seq<char>)>;

/// `url::form_urlencoded::parse`: the names and values of a query, one pair
/// after the other. How they are decoded is left to the crate.
#[verifier::external_body]
fn decode_pairs(query: &str) -> (r: Vec<(String, String)>)
    ensures
        pair_views(r@) == decoded_pairs(query@),
{
    url::form_urlencoded::parse(query.as_bytes()).into_owned().collect()
}

/// The query that holds some pairs.
pub uninterp spec fn encoded_pairs(pairs: Seq<(Seq<char>, Seq<char>)>) -> Seq<char>;

/// `url::form_urlencoded::Serializer::extend_pairs` and `finish`: the same
/// pairs are always written the same way, which is the empty text only where
/// there are none. They read back from what is written, also where it is put
/// behind another query and an ampersand: there they follow what that query
/// holds. How they are encoded is left to the crate.
#[verifier::external_body]
fn encode_pairs(pairs: &Vec<(String, String)>) -> (r: String)
    ensures
        r@ == encoded_pairs(pair_views(pairs@)),
        r@.len() == 0 <==> pairs@.len() == 0,
        decoded_pairs(r@) == pair_views(pairs@),
        forall|query: Seq<char>| #[trigger]
            decoded_pairs(query + "&"@ + r@) == decoded_pairs(query) + pair_views(pairs@),
{
    url::form_urlencoded::Serializer::new(String::new()).extend_pairs(pairs).finish()
}

pub open spec fn str_pair_views(pairs: Seq<(&str, &str)>) -> Seq<(Seq<char>, Seq<char>)> {
    pairs.map_values(|p: (&str, &str)| (p.0@, p.1@))
}

/// The pairs with something in them.
pub open spec fn filled(pairs: Seq<(Seq<char>, Seq<char>)>) -> Seq<(Seq<char>, Seq<char>)>
    decreases pairs.len(),
{
    if pairs.len() == 0 {
        pairs
    } else if pairs.last().1.len() == 0 {
        filled(pairs.drop_last())
    } else {
        filled(pairs.drop_last()).push(pairs.last())
    }
}

/// The query of some pairs; those with nothing in them are left out.
pub open spec fn query_of(pairs: Seq<(Seq<char>, Seq<char>)>) -> Seq<char> {
    encoded_pairs(filled(pairs))
}

pub fn query_string(pairs: &Vec<(&str, &str)>) -> (r: String)
    ensures
        r@ == query_of(str_pair_views(pairs@)),
        r@.len() == 0 <==> filled(str_pair_views(pairs@)).len() == 0,
        decoded_pairs(r@) == filled(str_pair_views(pairs@)),
        forall|query: Seq<char>| #[trigger]
            decoded_pairs(query + "&"@ + r@) == decoded_pairs(query) + filled(
                str_pair_views(pairs@),
            ),
{
    let ghost all = str_pair_views(pairs@);
    let mut kept: Vec<(String, String)> = Vec::new();
    let mut i: usize = 0;
    assert(pair_views(kept@) =~= filled(all.take(0)));
    while i < pairs.len()
        invariant
            i <= pairs@.len(),
            all == str_pair_views(pairs@),
            pair_views(kept@) == filled(all.take(i as int)),
        decreases pairs@.len() - i,
    {
        let ghost before = kept@;
        assert(all.take(i + 1).drop_last() =~= all.take(i as int));
        assert(all.take(i + 1).last() == (pairs@[i as int].0@, pairs@[i as int].1@));
        if !pairs[i].1.is_empty() {
            kept.push((pairs[i].0.to_string(), pairs[i].1.to_string()));
            assert(pair_views(kept@) =~= pair_views(before).push(all[i as int]));
        }
        i = i + 1;
    }
    assert(all.take(i as int) =~= all);
    assert(pair_views(kept@).len() == kept@.len());
    encode_pairs(&kept)
}

/// The values of a query by their names; of two with one name the later one
/// counts.
pub fn parse_query(query: &str) -> (r: Dict<String>)
    ensures
        forall|k: Seq<char>| #[trigger]
            crate::rows::opt_text(r.spec_get(k)) == last_value(decoded_pairs(query@), k),
{
    by_name(&decode_pairs(query))
}

/// Values by their names; of two with one name the later one counts.
pub fn by_name(pairs: &Vec<(String, String)>) -> (r: Dict<String>)
    ensures
        forall|k: Seq<char>| #[trigger]
            crate::rows::opt_text(r.spec_get(k)) == last_value(pair_views(pairs@), k),
{
    let ghost all = pair_views(pairs@);
    let mut out: Dict<String> = Dict::new();
    let mut i: usize = 0;
    while i < pairs.len()
        invariant
            i <= pairs@.len(),
            all == pair_views(pairs@),
            forall|k: Seq<char>| #[trigger]
                crate::rows::opt_text(out.spec_get(k)) == last_value(all.take(i as int), k),
        decreases pairs@.len() - i,
    {
        assert(all.take(i + 1).drop_last() =~= all.take(i as int));
        assert(all.take(i + 1).last() == (pairs@[i as int].0@, pairs@[i as int].1@));
        out.insert(pairs[i].0.as_str(), pairs[i].1.clone());
        i = i + 1;
    }
    assert(all.take(i as int) =~= all);
    out
}

/// Where a redirect leads: the path alone, and the query that stood in it
/// together with what is added to it.
pub open spec fn target_of(path: Seq<char>, pairs: Seq<(Seq<char>, Seq<char>)>) -> (
    Seq<char>,
    Option<Seq<char>>,
) {
    joined_target(
        path,
        if filled(pairs).len() == 0 {
            Seq::empty()
        } else {
            query_of(pairs)
        },
    )
}

/// The path alone, and the query that stood in it together with another one,
/// where there is either.
pub open spec fn joined_target(path: Seq<char>, extra: Seq<char>) -> (
    Seq<char>,
    Option<Seq<char>>,
) {
    match split_once_at(path, '?') {
        Some((bare, query)) => if extra.len() == 0 {
            (bare, Some(query))
        } else {
            (bare, Some(query + "&"@ + extra))
        },
        None => if extra.len() == 0 {
            (path, None)
        } else {
            (path, Some(extra))
        },
    }
}

/// What the query of a link holds.
pub open spec fn pairs_in(query: Option<Seq<char>>) -> Seq<(Seq<char>, Seq<char>)> {
    match query {
        Some(q) => decoded_pairs(q),
        None => Seq::empty(),
    }
}

/// The query that stands in a path.
pub open spec fn query_in(path: Seq<char>) -> Option<Seq<char>> {
    match split_once_at(path, '?') {
        Some((_, query)) => Some(query),
        None => None,
    }
}

pub fn redirect_target(path: &str, pairs: &Vec<(&str, &str)>) -> (r: (String, Option<String>))
    ensures
        (r.0@, crate::rows::opt_text(r.1)) == target_of(path@, str_pair_views(pairs@)),
        pairs_in(crate::rows::opt_text(r.1)) == pairs_in(query_in(path@)) + filled(
            str_pair_views(pairs@),
        ),
{
    let extra = query_string(pairs);
    proof {
        let more = filled(str_pair_views(pairs@));
        let before = pairs_in(query_in(path@));
        if more.len() == 0 {
            assert(before + more =~= before);
        } else {
            assert(Seq::<(Seq<char>, Seq<char>)>::empty() + more =~= more);
        }
    }
    with_query(path, extra.as_str())
}

/// The path alone, and the query that stood in it together with another one.
pub fn with_query(path: &str, extra: &str) -> (r: (String, Option<String>))
    ensures
        (r.0@, crate::rows::opt_text(r.1)) == joined_target(path@, extra@),
{
    match split_once(path, '?') {
        Some((bare, query)) => {
            let mut q = query.to_string();
            if !extra.is_empty() {
                q.append("&");
                q.append(extra);
            }
            (bare.to_string(), Some(q))
        },
        None => {
            if extra.is_empty() {
                (path.to_string(), None)
            } else {
                (path.to_string(), Some(extra.to_string()))
            }
        },
    }
}

/// The path of a redirect is the route alone, whatever query it came with.
pub proof fn a_redirects_path_holds_no_query(path: Seq<char>, pairs: Seq<(Seq<char>, Seq<char>)>)
    ensures
        !target_of(path, pairs).0.contains('?'),
{
    crate::text::lemma_first_at(path, '?', 0);
}

} // verus!
