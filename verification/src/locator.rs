//! Site data as the locator service reports it, and the table of sites keyed
//! by their identifiers.

use vstd::prelude::*;
use crate::str_map::StrMap;

verus! {

/// The identifier of a site.
pub struct Meta {
    pub id: String,
}

impl DeepView for Meta {
    type V = Seq<char>;

    open spec fn deep_view(&self) -> Seq<char> {
        self.id@
    }
}

impl Clone for Meta {
    fn clone(&self) -> (r: Self)
        ensures
            r.deep_view() == self.deep_view(),
    {
        Meta { id: self.id.clone() }
    }
}

/// A postal address; every part may be missing.
#[allow(non_snake_case)]
pub struct StreetAddress {
    pub city: Option<String>,
    pub countryCode: Option<String>,
    pub extraDescription: Option<String>,
    pub line1: Option<String>,
    pub line2: Option<String>,
    pub line3: Option<String>,
    pub postalCode: Option<String>,
    pub region: Option<String>,
    pub sublocality: Option<String>,
}

/// The parts of a postal address, as text.
#[allow(non_snake_case)]
pub struct AddressView {
    pub city: Option<Seq<char>>,
    pub countryCode: Option<Seq<char>>,
    pub extraDescription: Option<Seq<char>>,
    pub line1: Option<Seq<char>>,
    pub line2: Option<Seq<char>>,
    pub line3: Option<Seq<char>>,
    pub postalCode: Option<Seq<char>>,
    pub region: Option<Seq<char>>,
    pub sublocality: Option<Seq<char>>,
}

impl DeepView for StreetAddress {
    type V = AddressView;

    open spec fn deep_view(&self) -> AddressView {
        AddressView {
            city: self.city.deep_view(),
            countryCode: self.countryCode.deep_view(),
            extraDescription: self.extraDescription.deep_view(),
            line1: self.line1.deep_view(),
            line2: self.line2.deep_view(),
            line3: self.line3.deep_view(),
            postalCode: self.postalCode.deep_view(),
            region: self.region.deep_view(),
            sublocality: self.sublocality.deep_view(),
        }
    }
}

impl Clone for StreetAddress {
    fn clone(&self) -> (r: Self)
        ensures
            r.deep_view() == self.deep_view(),
    {
        StreetAddress {
            city: self.city.clone(),
            countryCode: self.countryCode.clone(),
            extraDescription: self.extraDescription.clone(),
            line1: self.line1.clone(),
            line2: self.line2.clone(),
            line3: self.line3.clone(),
            postalCode: self.postalCode.clone(),
            region: self.region.clone(),
            sublocality: self.sublocality.clone(),
        }
    }
}

/// A routable position. Latitude and longitude are held as the decimal text
/// that prints the coordinate exactly; that text names the position when a
/// site has no place identifier.
pub struct Coordinates {
    pub lat: String,
    pub long: String,
}

impl DeepView for Coordinates {
    type V = (Seq<char>, Seq<char>);

    open spec fn deep_view(&self) -> (Seq<char>, Seq<char>) {
        (self.lat@, self.long@)
    }
}

impl Clone for Coordinates {
    fn clone(&self) -> (r: Self)
        ensures
            r.deep_view() == self.deep_view(),
    {
        Coordinates { lat: self.lat.clone(), long: self.long.clone() }
    }
}

/// Opening and closing time of one interval of a day.
#[derive(Clone, Copy)]
pub struct DayHourInterval {
    pub start: i32,
    pub end: i32,
}

impl DeepView for DayHourInterval {
    type V = (i32, i32);

    open spec fn deep_view(&self) -> (i32, i32) {
        (self.start, self.end)
    }
}

/// The opening intervals of one day of the week.
#[allow(non_snake_case)]
pub struct DayHour {
    pub day: String,
    pub isClosed: bool,
    pub intervals: Vec<DayHourInterval>,
}

impl DeepView for DayHour {
    type V = (Seq<char>, bool, Seq<(i32, i32)>);

    open spec fn deep_view(&self) -> (Seq<char>, bool, Seq<(i32, i32)>) {
        (self.day@, self.isClosed, self.intervals.deep_view())
    }
}

impl Clone for DayHour {
    fn clone(&self) -> (r: Self)
        ensures
            r.deep_view() == self.deep_view(),
    {
        let intervals = self.intervals.clone();
        assert(intervals.deep_view() =~= self.intervals.deep_view());
        DayHour { day: self.day.clone(), isClosed: self.isClosed, intervals }
    }
}

/// The weekly opening hours.
#[allow(non_snake_case)]
pub struct Hours {
    pub normalHours: Vec<DayHour>,
}

impl DeepView for Hours {
    type V = Seq<(Seq<char>, bool, Seq<(i32, i32)>)>;

    open spec fn deep_view(&self) -> Seq<(Seq<char>, bool, Seq<(i32, i32)>)> {
        self.normalHours.deep_view()
    }
}

impl Clone for Hours {
    fn clone(&self) -> (r: Self)
        ensures
            r.deep_view() == self.deep_view(),
    {
        let normal_hours = self.normalHours.clone();
        assert(normal_hours.deep_view() =~= self.normalHours.deep_view());
        Hours { normalHours: normal_hours }
    }
}

/// The telephone number as displayed.
pub struct MainPhone {
    pub display: String,
}

impl DeepView for MainPhone {
    type V = Seq<char>;

    open spec fn deep_view(&self) -> Seq<char> {
        self.display@
    }
}

impl Clone for MainPhone {
    fn clone(&self) -> (r: Self)
        ensures
            r.deep_view() == self.deep_view(),
    {
        MainPhone { display: self.display.clone() }
    }
}

/// One site as the locator service describes it.
#[allow(non_snake_case)]
pub struct LocatorProfile {
    pub googlePlaceId: Option<String>,
    pub address: StreetAddress,
    pub yextRoutableCoordinate: Coordinates,
    pub c_conceptCode: String,
    pub c_status: String,
    pub c_locationSubtypeCode: String,
    pub c_carryout: bool,
    pub c_fullDineIn: bool,
    pub c_limitedDineIn: bool,
    pub c_locationName: String,
    pub hours: Hours,
    pub mainPhone: Option<MainPhone>,
    pub meta: Meta,
}

/// A site, with every text as a sequence of characters.
#[allow(non_snake_case)]
pub struct ProfileView {
    pub googlePlaceId: Option<Seq<char>>,
    pub address: AddressView,
    pub yextRoutableCoordinate: (Seq<char>, Seq<char>),
    pub c_conceptCode: Seq<char>,
    pub c_status: Seq<char>,
    pub c_locationSubtypeCode: Seq<char>,
    pub c_carryout: bool,
    pub c_fullDineIn: bool,
    pub c_limitedDineIn: bool,
    pub c_locationName: Seq<char>,
    pub hours: Seq<(Seq<char>, bool, Seq<(i32, i32)>)>,
    pub mainPhone: Option<Seq<char>>,
    pub meta: Seq<char>,
}

impl DeepView for LocatorProfile {
    type V = ProfileView;

    open spec fn deep_view(&self) -> ProfileView {
        ProfileView {
            googlePlaceId: self.googlePlaceId.deep_view(),
            address: self.address.deep_view(),
            yextRoutableCoordinate: self.yextRoutableCoordinate.deep_view(),
            c_conceptCode: self.c_conceptCode@,
            c_status: self.c_status@,
            c_locationSubtypeCode: self.c_locationSubtypeCode@,
            c_carryout: self.c_carryout,
            c_fullDineIn: self.c_fullDineIn,
            c_limitedDineIn: self.c_limitedDineIn,
            c_locationName: self.c_locationName@,
            hours: self.hours.deep_view(),
            mainPhone: self.mainPhone.deep_view(),
            meta: self.meta.deep_view(),
        }
    }
}

impl Clone for LocatorProfile {
    fn clone(&self) -> (r: Self)
        ensures
            r.deep_view() == self.deep_view(),
    {
        let google_place_id = self.googlePlaceId.clone();
        let main_phone = match &self.mainPhone {
            Some(phone) => Some(phone.clone()),
            None => None,
        };
        LocatorProfile {
            googlePlaceId: google_place_id,
            address: self.address.clone(),
            yextRoutableCoordinate: self.yextRoutableCoordinate.clone(),
            c_conceptCode: self.c_conceptCode.clone(),
            c_status: self.c_status.clone(),
            c_locationSubtypeCode: self.c_locationSubtypeCode.clone(),
            c_carryout: self.c_carryout,
            c_fullDineIn: self.c_fullDineIn,
            c_limitedDineIn: self.c_limitedDineIn,
            c_locationName: self.c_locationName.clone(),
            hours: self.hours.clone(),
            mainPhone: main_phone,
            meta: self.meta.clone(),
        }
    }
}

/// One search result of the locator service.
pub struct Entity {
    pub profile: LocatorProfile,
}

/// The body of a locator response.
pub struct LocatorResponse {
    pub entities: Vec<Entity>,
}

/// A whole locator response.
pub struct LocatorJson {
    pub response: LocatorResponse,
}

/// A list of sites.
pub struct Profiles {
    pub profiles: Vec<LocatorProfile>,
}

/// Sites keyed by their identifiers.
pub type CfaProfiles = StrMap<LocatorProfile>;

/// The map `m` after inserting each site of `ps` in turn under its
/// identifier; a later site replaces an earlier one with the same identifier.
pub open spec fn insert_profiles(m: Map<Seq<char>, ProfileView>, ps: Seq<ProfileView>) -> Map<
    Seq<char>,
    ProfileView,
>
    decreases ps.len(),
{
    if ps.len() == 0 {
        m
    } else {
        insert_profiles(m, ps.drop_last()).insert(ps.last().meta, ps.last())
    }
}

/// Inserts each site of `profiles`, in order, under its identifier.
pub fn insert_all(map: &mut CfaProfiles, profiles: Vec<LocatorProfile>)
    requires
        old(map).wf(),
    ensures
        final(map).wf(),
        final(map)@ == insert_profiles(old(map)@, profiles.deep_view()),
{
    let ghost ps = profiles.deep_view();
    let ghost start = map@;
    proof {
        assert(ps.take(0) =~= Seq::<ProfileView>::empty());
    }
    for profile in it: profiles
        invariant
            map.wf(),
            it.seq() == profiles@,
            ps == profiles.deep_view(),
            map@ == insert_profiles(start, ps.take(it.index() as int)),
    {
        let ghost i = it.index();
        proof {
            assert(ps.take(i + 1).drop_last() =~= ps.take(i as int));
        }
        let id = profile.meta.id.clone();
        map.insert(id, profile);
    }
    proof {
        assert(ps.take(ps.len() as int) =~= ps);
    }
}

/// Sites keyed by their identifiers; where two sites share an identifier,
/// the later one is kept.
pub fn index_profiles(data: Vec<LocatorProfile>) -> (r: CfaProfiles)
    ensures
        r.wf(),
        r@ == insert_profiles(Map::empty(), data.deep_view()),
{
    let mut map = CfaProfiles::new();
    insert_all(&mut map, data);
    map
}

/// The sites that a locator response reports, in order.
pub open spec fn located_profiles(data: LocatorJson) -> Seq<ProfileView> {
    Seq::new(
        data.response.entities@.len(),
        |i: int| data.response.entities@[i].profile.deep_view(),
    )
}

/// Adds the sites of a locator response, in order, under their identifiers.
pub fn add_located(map: &mut CfaProfiles, data: LocatorJson)
    requires
        old(map).wf(),
    ensures
        final(map).wf(),
        final(map)@ == insert_profiles(old(map)@, located_profiles(data)),
{
    let ghost ps = located_profiles(data);
    let ghost start = map@;
    let entities = data.response.entities;
    proof {
        assert(ps.take(0) =~= Seq::<ProfileView>::empty());
    }
    for entity in it: entities
        invariant
            map.wf(),
            it.seq() == entities@,
            ps.len() == entities@.len(),
            forall|j: int| 0 <= j < ps.len() ==> ps[j] == #[trigger] entities@[j].profile.deep_view(),
            map@ == insert_profiles(start, ps.take(it.index() as int)),
    {
        let ghost i = it.index();
        proof {
            assert(ps.take(i + 1).drop_last() =~= ps.take(i as int));
            assert(ps[i as int] == entities@[i as int].profile.deep_view());
        }
        let profile = entity.profile;
        let id = profile.meta.id.clone();
        map.insert(id, profile);
    }
    proof {
        assert(ps.take(ps.len() as int) =~= ps);
    }
}

/// Combines two site tables; where both hold an identifier, the site of `b`
/// is kept.
pub fn merge_locations(a: CfaProfiles, b: CfaProfiles) -> (r: CfaProfiles)
    requires
        a.wf(),
        b.wf(),
    ensures
        r.wf(),
        r@ == a@.union_prefer_right(b@),
{
    let mut a = a;
    a.extend(b);
    a
}

/// After inserting sites one by one, each identifier holds the site it held
/// before or an inserted site that carries it.
pub proof fn lemma_insert_profiles_values(m: Map<Seq<char>, ProfileView>, ps: Seq<ProfileView>, k: Seq<char>)
    requires
        insert_profiles(m, ps).contains_key(k),
    ensures
        (m.contains_key(k) && insert_profiles(m, ps)[k] == m[k]) || exists|j: int|
            0 <= j < ps.len() && #[trigger] ps[j] == insert_profiles(m, ps)[k] && ps[j].meta == k,
    decreases ps.len(),
{
    if ps.len() > 0 {
        let init = ps.drop_last();
        if ps.last().meta == k {
            assert(ps[ps.len() - 1] == insert_profiles(m, ps)[k]);
        } else {
            lemma_insert_profiles_values(m, init, k);
            if !(m.contains_key(k) && insert_profiles(m, init)[k] == m[k]) {
                let j = choose|j: int|
                    0 <= j < init.len() && #[trigger] init[j] == insert_profiles(m, init)[k]
                        && init[j].meta == k;
                assert(ps[j] == init[j]);
            }
        }
    }
}

/// After inserting sites one by one, an identifier is present exactly when
/// it was present before or some inserted site carries it, and it holds the
/// last inserted site that carries it.
pub proof fn lemma_insert_profiles(m: Map<Seq<char>, ProfileView>, ps: Seq<ProfileView>, k: Seq<char>)
    ensures
        insert_profiles(m, ps).contains_key(k) <==> (m.contains_key(k) || exists|j: int|
            0 <= j < ps.len() && #[trigger] ps[j].meta == k),
        forall|i: int|
            0 <= i < ps.len() && ps[i].meta == k && (forall|j: int|
                i < j < ps.len() ==> #[trigger] ps[j].meta != k) ==> insert_profiles(m, ps)[k]
                == ps[i],
        (forall|j: int| 0 <= j < ps.len() ==> #[trigger] ps[j].meta != k) ==> insert_profiles(m, ps).contains_key(k)
            == m.contains_key(k) && insert_profiles(m, ps)[k] == m[k],
    decreases ps.len(),
{
    if ps.len() > 0 {
        let init = ps.drop_last();
        lemma_insert_profiles(m, init, k);
        assert forall|j: int| 0 <= j < init.len() implies #[trigger] init[j] == ps[j] by {}
        if ps.last().meta != k {
            assert((exists|j: int| 0 <= j < ps.len() && #[trigger] ps[j].meta == k) <==> (exists|j: int|
                0 <= j < init.len() && #[trigger] init[j].meta == k)) by {
                if exists|j: int| 0 <= j < ps.len() && #[trigger] ps[j].meta == k {
                    let j = choose|j: int| 0 <= j < ps.len() && #[trigger] ps[j].meta == k;
                    assert(j < init.len());
                    assert(init[j].meta == k);
                }
            }
            assert forall|i: int|
                0 <= i < ps.len() && ps[i].meta == k && (forall|j: int|
                    i < j < ps.len() ==> #[trigger] ps[j].meta != k) implies insert_profiles(m, ps)[k]
                == ps[i] by {
                assert(i < init.len());
                assert(init[i].meta == k);
                assert forall|j: int| i < j < init.len() implies #[trigger] init[j].meta != k by {
                    assert(ps[j].meta != k);
                }
            }
        } else {
            assert(ps[ps.len() - 1].meta == k);
        }
    }
}

} // verus!
