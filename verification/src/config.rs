//! Selection of the heuristic and strategy variant by name: the validation
//! that the command surface performs before any worker is spawned.

use vstd::prelude::*;
use crate::structs::HeurType;

verus! {

/// The heuristic names the command surface accepts.
pub open spec fn heur_name_ok(s: Seq<char>) -> bool {
    ||| s == "euclidean"@
    ||| s == "manhattan"@
    ||| s == "expensive"@
    ||| s == "nonadmissible"@
    ||| s == "expnon"@
}

/// The strategy names the command surface accepts.
pub open spec fn algo_name_ok(s: Seq<char>) -> bool {
    ||| s == "hda"@
    ||| s == "dpa"@
    ||| s == "kpbfs"@
}

/// Accept exactly the known heuristic names; anything else is rejected
/// before any worker starts.
pub fn validate_heuristic(heur: String) -> (r: Result<(), String>)
    ensures
        r is Ok <==> heur_name_ok(heur@),
{
    if heur == "euclidean".to_owned() || heur == "manhattan".to_owned() || heur
        == "expensive".to_owned() || heur == "nonadmissible".to_owned() || heur
        == "expnon".to_owned() {
        Ok(())
    } else {
        Err(
            "Please input a valid heuristic option [euclidean, manhattan, expensive, nonadmissible, expnon]".to_owned(),
        )
    }
}

/// Accept exactly the known strategy names; anything else is rejected
/// before any worker starts.
pub fn validate_algo(algo: String) -> (r: Result<(), String>)
    ensures
        r is Ok <==> algo_name_ok(algo@),
{
    if algo == "hda".to_owned() || algo == "dpa".to_owned() || algo == "kpbfs".to_owned() {
        Ok(())
    } else {
        Err("Please input a valid implementation option [hda, dpa, kpbfs]".to_owned())
    }
}

/// The five heuristic names are pairwise distinct, so at most one branch of
/// a name dispatch can match.
proof fn lemma_heur_names_distinct()
    ensures
        "euclidean"@ != "manhattan"@,
        "euclidean"@ != "expensive"@,
        "euclidean"@ != "nonadmissible"@,
        "euclidean"@ != "expnon"@,
        "manhattan"@ != "expensive"@,
        "manhattan"@ != "nonadmissible"@,
        "manhattan"@ != "expnon"@,
        "expensive"@ != "nonadmissible"@,
        "expensive"@ != "expnon"@,
        "nonadmissible"@ != "expnon"@,
{
    reveal_strlit("euclidean");
    reveal_strlit("manhattan");
    reveal_strlit("expensive");
    reveal_strlit("nonadmissible");
    reveal_strlit("expnon");
    assert("euclidean"@.len() == 9);
    assert("manhattan"@.len() == 9);
    assert("expensive"@.len() == 9);
    assert("nonadmissible"@.len() == 13);
    assert("expnon"@.len() == 6);
    assert("euclidean"@[0] == 'e');
    assert("manhattan"@[0] == 'm');
    assert("expensive"@[0] == 'e');
    assert("euclidean"@[1] == 'u');
    assert("expensive"@[1] == 'x');
}

/// The heuristic strategy behind a name; exactly the validated names map to
/// a strategy.
pub fn heur_for_name(heur: &String) -> (r: Option<HeurType>)
    ensures
        r is Some <==> heur_name_ok(heur@),
        heur@ == "euclidean"@ ==> r == Some(HeurType::EuclideanDist),
        heur@ == "manhattan"@ ==> r == Some(HeurType::ManhattanDist),
        heur@ == "expensive"@ ==> r == Some(HeurType::Expensive),
        heur@ == "nonadmissible"@ ==> r == Some(HeurType::NonAdmissible),
        heur@ == "expnon"@ ==> r == Some(HeurType::ExpensiveNonAdmissible),
{
    proof {
        lemma_heur_names_distinct();
    }
    if *heur == "euclidean".to_owned() {
        Some(HeurType::EuclideanDist)
    } else if *heur == "manhattan".to_owned() {
        Some(HeurType::ManhattanDist)
    } else if *heur == "expensive".to_owned() {
        Some(HeurType::Expensive)
    } else if *heur == "nonadmissible".to_owned() {
        Some(HeurType::NonAdmissible)
    } else if *heur == "expnon".to_owned() {
        Some(HeurType::ExpensiveNonAdmissible)
    } else {
        None
    }
}

/// The command-surface name of a heuristic strategy; the inverse of
/// `heur_for_name` on the validated names.
pub fn string_from_heur(heur: HeurType) -> (r: String)
    ensures
        heur == HeurType::EuclideanDist ==> r@ == "euclidean"@,
        heur == HeurType::ManhattanDist ==> r@ == "manhattan"@,
        heur == HeurType::Expensive ==> r@ == "expensive"@,
        heur == HeurType::NonAdmissible ==> r@ == "nonadmissible"@,
        heur == HeurType::ExpensiveNonAdmissible ==> r@ == "expnon"@,
        heur_name_ok(r@),
{
    match heur {
        HeurType::EuclideanDist => "euclidean".to_owned(),
        HeurType::ManhattanDist => "manhattan".to_owned(),
        HeurType::Expensive => "expensive".to_owned(),
        HeurType::NonAdmissible => "nonadmissible".to_owned(),
        HeurType::ExpensiveNonAdmissible => "expnon".to_owned(),
    }
}

} // verus!
