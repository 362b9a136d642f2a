//! Selection of the sites worth visiting.

use vstd::prelude::*;
use crate::str_map::lemma_map_of_at;
use crate::locator::{
    CfaProfiles,
    LocatorProfile,
    ProfileView,
    insert_profiles,
    lemma_insert_profiles,
    lemma_insert_profiles_values,
};

verus! {

/// A site is kept when it is an open free-standing unit, a drive-through
/// at a hospital or other host ("DHG"), or a drive-through-only unit that
/// offers carry-out.
pub open spec fn is_kept(p: ProfileView) -> bool {
    ||| (p.c_status == "OPEN"@ && p.c_locationSubtypeCode == "FSU"@)
    ||| p.c_locationSubtypeCode == "DHG"@
    ||| (p.c_locationSubtypeCode == "DTO"@ && p.c_carryout)
}

/// The kept sites of `ps`, in order.
pub open spec fn kept_profiles(ps: Seq<ProfileView>) -> Seq<ProfileView>
    decreases ps.len(),
{
    if ps.len() == 0 {
        Seq::empty()
    } else if is_kept(ps.last()) {
        kept_profiles(ps.drop_last()).push(ps.last())
    } else {
        kept_profiles(ps.drop_last())
    }
}

/// The kept sites of `ps` are exactly the sites of `ps` that are kept.
pub proof fn lemma_kept_profiles(ps: Seq<ProfileView>)
    ensures
        forall|i: int|
            0 <= i < kept_profiles(ps).len() ==> is_kept(#[trigger] kept_profiles(ps)[i])
                && ps.contains(kept_profiles(ps)[i]),
        forall|i: int| 0 <= i < ps.len() && is_kept(#[trigger] ps[i]) ==> kept_profiles(ps).contains(ps[i]),
    decreases ps.len(),
{
    if ps.len() > 0 {
        let init = ps.drop_last();
        lemma_kept_profiles(init);
        let k = kept_profiles(init);
        assert forall|i: int| 0 <= i < kept_profiles(ps).len() implies is_kept(
            #[trigger] kept_profiles(ps)[i],
        ) && ps.contains(kept_profiles(ps)[i]) by {
            if i < k.len() {
                assert(kept_profiles(ps)[i] == k[i]);
                let j = init.index_of(k[i]);
                assert(ps[j] == k[i]);
            } else {
                assert(ps[ps.len() - 1] == ps.last());
            }
        }
        assert forall|i: int| 0 <= i < ps.len() && is_kept(#[trigger] ps[i]) implies kept_profiles(
            ps,
        ).contains(ps[i]) by {
            if i < ps.len() - 1 {
                assert(init[i] == ps[i]);
                let j = k.index_of(ps[i]);
                assert(kept_profiles(ps)[j] == ps[i]);
            } else {
                assert(kept_profiles(ps)[kept_profiles(ps).len() - 1] == ps[i]);
            }
        }
    }
}

/// What keeps a site depends on its kind: a free-standing unit is kept
/// exactly when it is open, a DHG unit always, a drive-through-only unit
/// exactly when it offers carry-out, and a site of any other kind never.
pub proof fn law_kept_by_subtype(p: ProfileView)
    ensures
        p.c_locationSubtypeCode == "FSU"@ ==> (is_kept(p) <==> p.c_status == "OPEN"@),
        p.c_locationSubtypeCode == "DHG"@ ==> is_kept(p),
        p.c_locationSubtypeCode == "DTO"@ ==> (is_kept(p) <==> p.c_carryout),
        p.c_locationSubtypeCode != "FSU"@ && p.c_locationSubtypeCode != "DHG"@
            && p.c_locationSubtypeCode != "DTO"@ ==> !is_kept(p),
{
    reveal_strlit("FSU");
    reveal_strlit("DHG");
    reveal_strlit("DTO");
    assert("FSU"@ != "DHG"@) by {
        assert("FSU"@[0] != "DHG"@[0]);
    }
    assert("FSU"@ != "DTO"@) by {
        assert("FSU"@[0] != "DTO"@[0]);
    }
    assert("DHG"@ != "DTO"@) by {
        assert("DHG"@[1] != "DTO"@[1]);
    }
}

/// Whether a site is kept.
pub fn keeps(profile: &LocatorProfile) -> (r: bool)
    ensures
        r == is_kept(profile.deep_view()),
        profile.c_locationSubtypeCode@ == "FSU"@ ==> (r <==> profile.c_status@ == "OPEN"@),
        profile.c_locationSubtypeCode@ == "DHG"@ ==> r,
        profile.c_locationSubtypeCode@ == "DTO"@ ==> (r <==> profile.c_carryout),
        profile.c_locationSubtypeCode@ != "FSU"@ && profile.c_locationSubtypeCode@ != "DHG"@
            && profile.c_locationSubtypeCode@ != "DTO"@ ==> !r,
{
    proof {
        law_kept_by_subtype(profile.deep_view());
    }
    let open = "OPEN".to_owned();
    let fsu = "FSU".to_owned();
    let dhg = "DHG".to_owned();
    let dto = "DTO".to_owned();
    (profile.c_status == open && profile.c_locationSubtypeCode == fsu)
        || profile.c_locationSubtypeCode == dhg
        || (profile.c_locationSubtypeCode == dto && profile.c_carryout)
}

/// The kept sites of a table, keyed by their own identifiers.
pub fn filter_profiles(profiles: &CfaProfiles) -> (r: CfaProfiles)
    requires
        profiles.wf(),
    ensures
        r.wf(),
        r@ == insert_profiles(Map::empty(), kept_profiles(profiles.val_seq())),
        forall|k: Seq<char>|
            #[trigger] r@.contains_key(k) ==> r@[k].meta == k && is_kept(r@[k])
                && profiles.val_seq().contains(r@[k]),
        forall|i: int|
            0 <= i < profiles.val_seq().len() && is_kept(#[trigger] profiles.val_seq()[i])
                ==> r@.contains_key(profiles.val_seq()[i].meta),
{
    let ghost ps = profiles.val_seq();
    let mut map = CfaProfiles::new();
    let n = profiles.len();
    let mut i: usize = 0;
    proof {
        assert(ps.take(0) =~= Seq::<ProfileView>::empty());
    }
    while i < n
        invariant
            profiles.wf(),
            ps == profiles.val_seq(),
            n == ps.len(),
            i <= n,
            map.wf(),
            map@ == insert_profiles(Map::empty(), kept_profiles(ps.take(i as int))),
        decreases n - i,
    {
        let profile = profiles.value_at(i);
        proof {
            assert(ps.take(i + 1).drop_last() =~= ps.take(i as int));
            assert(ps.take(i + 1).last() == ps[i as int]);
        }
        if keeps(profile) {
            let ghost before = kept_profiles(ps.take(i as int));
            let copy = profile.clone();
            let id = copy.meta.id.clone();
            map.insert(id, copy);
            proof {
                assert(before.push(ps[i as int]).drop_last() =~= before);
            }
        }
        i = i + 1;
    }
    proof {
        assert(ps.take(n as int) =~= ps);
        let kp = kept_profiles(ps);
        let empty = Map::<Seq<char>, ProfileView>::empty();
        lemma_kept_profiles(ps);
        assert forall|k: Seq<char>| #[trigger] map@.contains_key(k) implies map@[k].meta == k
            && is_kept(map@[k]) && ps.contains(map@[k]) by {
            lemma_insert_profiles_values(empty, kp, k);
            let j = choose|j: int| 0 <= j < kp.len() && #[trigger] kp[j] == map@[k] && kp[j].meta == k;
            assert(is_kept(kp[j]));
        }
        assert forall|i: int| 0 <= i < ps.len() && is_kept(#[trigger] ps[i]) implies map@.contains_key(
            ps[i].meta,
        ) by {
            lemma_insert_profiles(empty, kp, ps[i].meta);
            let j = kp.index_of(ps[i]);
            assert(kp[j].meta == ps[i].meta);
        }
    }
    map
}

/// Filtering the sites that a filter kept keeps them all: filtering twice
/// gives the table that filtering once gives.
pub proof fn law_filter_idempotent(p: &CfaProfiles, r: &CfaProfiles, r2: &CfaProfiles)
    requires
        p.wf(),
        r.wf(),
        r2.wf(),
        r@ == insert_profiles(Map::empty(), kept_profiles(p.val_seq())),
        r2@ == insert_profiles(Map::empty(), kept_profiles(r.val_seq())),
    ensures
        r2@ == r@,
{
    let empty = Map::<Seq<char>, ProfileView>::empty();
    let kp = kept_profiles(p.val_seq());
    let ks = r.key_seq();
    let vs = r.val_seq();
    let kr = kept_profiles(vs);
    lemma_kept_profiles(p.val_seq());
    lemma_kept_profiles(vs);
    // Every value of `r` is kept and sits under its own identifier.
    assert forall|i: int| 0 <= i < vs.len() implies #[trigger] vs[i].meta == ks[i] && is_kept(vs[i]) by {
        lemma_map_of_at(ks, vs, i);
        lemma_insert_profiles_values(empty, kp, ks[i]);
        let j = choose|j: int| 0 <= j < kp.len() && #[trigger] kp[j] == r@[ks[i]] && kp[j].meta == ks[i];
        assert(is_kept(kp[j]));
    }
    assert forall|k: Seq<char>| #[trigger] r2@.contains_key(k) == r@.contains_key(k) by {
        lemma_insert_profiles(empty, kr, k);
        if r2@.contains_key(k) {
            let j = choose|j: int| 0 <= j < kr.len() && #[trigger] kr[j].meta == k;
            let i = vs.index_of(kr[j]);
            assert(vs[i].meta == ks[i]);
            assert(ks.contains(k));
        }
        if r@.contains_key(k) {
            let i = ks.index_of(k);
            assert(vs[i].meta == k);
            assert(kr.contains(vs[i]));
            let j = kr.index_of(vs[i]);
            assert(kr[j].meta == k);
        }
    }
    assert forall|k: Seq<char>| r2@.contains_key(k) implies #[trigger] r2@[k] == r@[k] by {
        lemma_insert_profiles_values(empty, kr, k);
        let j = choose|j: int| 0 <= j < kr.len() && #[trigger] kr[j] == r2@[k] && kr[j].meta == k;
        let i = vs.index_of(kr[j]);
        assert(vs[i].meta == ks[i]);
        lemma_map_of_at(ks, vs, i);
    }
    assert(r2@ =~= r@);
}

} // verus!
