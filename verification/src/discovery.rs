//! The discovery engine: turning the replies to one multicast query into an
//! ordered collection of unique device records.
//!
//! The surrounding application owns the datagram socket. It drives the
//! `Discovery` state machine: send the query text this module hands out, feed
//! every datagram that arrives into `on_datagram`, report the first
//! two-second gap of silence with `on_timeout`, and collect the records with
//! `finish`. Everything the machine decides — which datagrams count as
//! replies, how a reply becomes a record, which records are kept — is
//! verified here.

use vstd::prelude::*;
use vstd::string::StrSliceExecFns;
use vstd::string::StringExecFns;
use vstd::utf8::decode_utf8;
use vstd::utf8::valid_utf8;

use crate::bulb::Bulb;
use crate::bulb::BulbView;
use crate::headers::headers_of_text;
use crate::headers::pairs_map;
use crate::headers::parse_response;
use crate::headers::str_eq;
use crate::headers::string_views;
use crate::headers::trim;
use crate::headers::trim_str;

verus! {

/// Why a discovery run failed.
#[derive(Debug, PartialEq, Eq, Structural, Clone, Copy)]
pub enum DiscoveryError {
    /// No reply arrived before the collection loop ended: fatal for the run,
    /// no partial result is returned.
    DiscoveryEmpty,
}

/// The index of the first `//` in `s`, if any.
pub open spec fn find_sep(s: Seq<char>) -> Option<int>
    decreases s.len(),
{
    if s.len() < 2 {
        None
    } else if s[0] == '/' && s[1] == '/' {
        Some(0int)
    } else {
        match find_sep(s.drop_first()) {
            Some(i) => Some(i + 1),
            None => None,
        }
    }
}

/// The control address carried by a `Location` header value: everything after
/// the first `//`, trimmed. A value without the separator yields the empty
/// address (the record is kept, it simply cannot be commanded).
pub open spec fn address_of_location(value: Seq<char>) -> Seq<char> {
    match find_sep(value) {
        Some(i) => trim(value.skip(i + 2)),
        None => Seq::empty(),
    }
}

/// The value a header mapping holds for `key`, or the empty sequence when the
/// header is absent.
pub open spec fn field_or_empty(m: Map<Seq<char>, Seq<char>>, key: Seq<char>) -> Seq<char> {
    if m.contains_key(key) {
        m[key]
    } else {
        Seq::empty()
    }
}

/// The record a header mapping describes: the recognized headers map straight
/// across, `Location` is reduced to the control address, anything else is
/// ignored.
pub open spec fn bulb_of_map(m: Map<Seq<char>, Seq<char>>) -> BulbView {
    BulbView {
        location: address_of_location(field_or_empty(m, "Location"@)),
        id: field_or_empty(m, "id"@),
        power: field_or_empty(m, "power"@),
        bright: field_or_empty(m, "bright"@),
        color_mode: field_or_empty(m, "color_mode"@),
        rgb: field_or_empty(m, "rgb"@),
        ct: field_or_empty(m, "ct"@),
        hue: field_or_empty(m, "hue"@),
        sat: field_or_empty(m, "sat"@),
        name: field_or_empty(m, "name"@),
    }
}

/// The record one reply text describes.
pub open spec fn bulb_of_text(text: Seq<char>) -> BulbView {
    bulb_of_map(headers_of_text(text))
}

/// The views of a sequence of records.
pub open spec fn bulb_views(bs: Seq<Bulb>) -> Seq<BulbView> {
    bs.map_values(|b: Bulb| b@)
}

/// Whether some record in `bs` carries this identifier.
pub open spec fn has_id(bs: Seq<BulbView>, id: Seq<char>) -> bool {
    exists|j: int| 0 <= j < bs.len() && bs[j].id == id
}

/// Deduplication by identifier: a record is kept only when no earlier kept
/// record carries the same `id`, so the first reply observed for an `id`
/// wins and first-seen order is preserved.
pub open spec fn dedup_by_id(bs: Seq<BulbView>) -> Seq<BulbView>
    decreases bs.len(),
{
    if bs.len() == 0 {
        Seq::empty()
    } else {
        let front = dedup_by_id(bs.drop_last());
        if has_id(front, bs.last().id) {
            front
        } else {
            front.push(bs.last())
        }
    }
}

/// The records of a sequence of reply texts, before deduplication.
pub open spec fn reply_bulbs(replies: Seq<Seq<char>>) -> Seq<BulbView> {
    replies.map_values(|t: Seq<char>| bulb_of_text(t))
}

/// What a discovery run returns for these reply texts.
pub open spec fn bulbs_of_replies(replies: Seq<Seq<char>>) -> Seq<BulbView> {
    dedup_by_id(reply_bulbs(replies))
}

/// The reply texts carried by a sequence of datagrams: each datagram decoded
/// as text, the ones that do not decode silently dropped.
pub open spec fn decoded_replies(datagrams: Seq<Seq<u8>>) -> Seq<Seq<char>>
    decreases datagrams.len(),
{
    if datagrams.len() == 0 {
        Seq::empty()
    } else {
        let front = decoded_replies(datagrams.drop_last());
        if valid_utf8(datagrams.last()) {
            front.push(decode_utf8(datagrams.last()))
        } else {
            front
        }
    }
}

/// The fixed discovery query, sent once per run to the multicast group.
pub open spec fn discovery_query() -> Seq<char> {
    "M-SEARCH * HTTP/1.1\r\nHOST: 239.255.255.250:1982\r\nMAN: \"ssdp:discover\"\r\nST: wifi_bulb"@
}

/// The multicast group and port the query is sent to.
pub fn multicast_address() -> (r: &'static str)
    ensures
        r@ == "239.255.255.250:1982"@,
{
    "239.255.255.250:1982"
}

proof fn lemma_find_sep_props(s: Seq<char>)
    ensures
        match find_sep(s) {
            Some(i) => 0 <= i && i + 1 < s.len() && s[i] == '/' && s[i + 1] == '/' && (forall|
                j: int,
            |
                0 <= j < i ==> !(#[trigger] s[j] == '/' && s[j + 1] == '/')),
            None => forall|j: int|
                0 <= j && j + 1 < s.len() ==> !(#[trigger] s[j] == '/' && s[j + 1] == '/'),
        },
    decreases s.len(),
{
    if s.len() < 2 {
    } else if s[0] == '/' && s[1] == '/' {
    } else {
        lemma_find_sep_props(s.drop_first());
        match find_sep(s.drop_first()) {
            Some(i) => {
                assert forall|j: int|
                    0 <= j < i + 1 implies !(#[trigger] s[j] == '/' && s[j + 1] == '/') by {
                    if j > 0 {
                        assert(s[j] == s.drop_first()[j - 1]);
                        assert(s[j + 1] == s.drop_first()[j]);
                    }
                }
            },
            None => {
                assert forall|j: int|
                    0 <= j && j + 1 < s.len() implies !(#[trigger] s[j] == '/' && s[j + 1]
                    == '/') by {
                    if j > 0 {
                        assert(s[j] == s.drop_first()[j - 1]);
                        assert(s[j + 1] == s.drop_first()[j]);
                    }
                }
            },
        }
    }
}

/// The control address inside a `Location` header value: everything after the
/// first `//`, trimmed; empty when the value has no `//`.
pub fn location_address(value: &str) -> (r: String)
    ensures
        r@ == address_of_location(value@),
{
    let n = value.unicode_len();
    proof {
        lemma_find_sep_props(value@);
    }
    if n < 2 {
        return String::new();
    }
    let mut i: usize = 0;
    while i + 1 < n && !(value.get_char(i) == '/' && value.get_char(i + 1) == '/')
        invariant
            0 <= i,
            i + 1 <= n,
            n == value@.len(),
            forall|j: int| 0 <= j < i ==> !(#[trigger] value@[j] == '/' && value@[j + 1] == '/'),
        decreases n - i,
    {
        i += 1;
    }
    if i + 1 == n {
        assert(find_sep(value@) is None);
        String::new()
    } else {
        assert(value@[i as int] == '/' && value@[i + 1] == '/');
        assert(find_sep(value@) == Some(i as int));
        let piece = value.substring_char(i + 2, n);
        let r = trim_str(piece);
        proof {
            assert(value@.subrange(i + 2, n as int) =~= value@.skip(i + 2));
        }
        r
    }
}

/// The value the pairs hold for `key`, later pairs winning; empty when none
/// carries it.
fn lookup_header(pairs: &Vec<(String, String)>, key: &str) -> (r: String)
    ensures
        r@ == field_or_empty(pairs_map(pairs@), key@),
{
    let mut r = String::new();
    let n = pairs.len();
    let mut i: usize = 0;
    proof {
        assert(pairs@.take(0) =~= Seq::<(String, String)>::empty());
    }
    while i < n
        invariant
            0 <= i <= n,
            n == pairs@.len(),
            r@ == field_or_empty(pairs_map(pairs@.take(i as int)), key@),
        decreases n - i,
    {
        proof {
            assert(pairs@.take(i + 1).drop_last() =~= pairs@.take(i as int));
            assert(pairs@.take(i + 1).last() == pairs@[i as int]);
        }
        if str_eq(pairs[i].0.as_str(), key) {
            r = pairs[i].1.clone();
        }
        i += 1;
    }
    proof {
        assert(pairs@.take(n as int) =~= pairs@);
    }
    r
}

/// Build one device record from a parsed reply: recognized headers map to
/// their fields, `Location` is reduced to the control address, unrecognized
/// headers are ignored, absent ones leave their field empty.
pub fn create_new_bulb(data: &Vec<(String, String)>) -> (b: Bulb)
    ensures
        b@ == bulb_of_map(pairs_map(data@)),
{
    let mut b = Bulb::new_bulb();
    let location_value = lookup_header(data, "Location");
    b.location = location_address(location_value.as_str());
    b.id = lookup_header(data, "id");
    b.power = lookup_header(data, "power");
    b.bright = lookup_header(data, "bright");
    b.color_mode = lookup_header(data, "color_mode");
    b.rgb = lookup_header(data, "rgb");
    b.ct = lookup_header(data, "ct");
    b.hue = lookup_header(data, "hue");
    b.sat = lookup_header(data, "sat");
    b.name = lookup_header(data, "name");
    proof {
        assert(b@ =~= bulb_of_map(pairs_map(data@)));
    }
    b
}

/// Turn the reply texts of one run into its result: fail fatally when no
/// reply arrived, otherwise one record per reply, deduplicated by `id` with
/// the first reply winning and first-seen order preserved.
pub fn get_bulbs(responses: &Vec<String>) -> (r: Result<Vec<Bulb>, DiscoveryError>)
    ensures
        r is Ok <==> responses@.len() > 0,
        r matches Ok(bs) ==> bulb_views(bs@) == bulbs_of_replies(string_views(responses@)),
        r matches Err(e) ==> e == DiscoveryError::DiscoveryEmpty,
{
    if responses.len() == 0 {
        return Err(DiscoveryError::DiscoveryEmpty);
    }
    let mut bulbs: Vec<Bulb> = Vec::new();
    let n = responses.len();
    let mut i: usize = 0;
    proof {
        assert(string_views(responses@).take(0) =~= Seq::<Seq<char>>::empty());
        assert(reply_bulbs(Seq::<Seq<char>>::empty()) =~= Seq::<BulbView>::empty());
        assert(bulb_views(bulbs@) =~= Seq::<BulbView>::empty());
    }
    while i < n
        invariant
            0 <= i <= n,
            n == responses@.len(),
            bulb_views(bulbs@) == dedup_by_id(
                reply_bulbs(string_views(responses@).take(i as int)),
            ),
        decreases n - i,
    {
        let parsed = parse_response(responses[i].as_str());
        let nb = create_new_bulb(&parsed);
        proof {
            assert(responses@[i as int]@ == string_views(responses@)[i as int]);
            assert(nb@ == bulb_of_text(string_views(responses@)[i as int]));
        }
        let mut duplicate = false;
        let m = bulbs.len();
        let mut j: usize = 0;
        while j < m
            invariant
                0 <= j <= m,
                m == bulbs@.len(),
                duplicate == exists|k: int| 0 <= k < j && bulbs@[k]@.id == nb@.id,
        decreases m - j,
        {
            if str_eq(bulbs[j].id.as_str(), nb.id.as_str()) {
                duplicate = true;
            }
            j += 1;
        }
        proof {
            let taken = reply_bulbs(string_views(responses@).take(i + 1));
            assert(taken.drop_last() =~= reply_bulbs(string_views(responses@).take(i as int)));
            assert(taken.last() == nb@);
            assert(duplicate == has_id(bulb_views(bulbs@), nb@.id)) by {
                if duplicate {
                    let k = choose|k: int| 0 <= k < bulbs@.len() && bulbs@[k]@.id == nb@.id;
                    assert(bulb_views(bulbs@)[k] == bulbs@[k]@);
                }
                if has_id(bulb_views(bulbs@), nb@.id) {
                    let k = choose|k: int|
                        0 <= k < bulb_views(bulbs@).len() && bulb_views(bulbs@)[k].id == nb@.id;
                    assert(bulbs@[k]@.id == nb@.id);
                }
            }
        }
        if !duplicate {
            let ghost before = bulbs@;
            bulbs.push(nb);
            proof {
                assert(bulb_views(bulbs@) =~= bulb_views(before).push(nb@));
            }
        }
        i += 1;
    }
    proof {
        assert(string_views(responses@).take(n as int) =~= string_views(responses@));
    }
    Ok(bulbs)
}

/// Relies on `str::from_utf8`: it succeeds exactly on well-formed UTF-8 and
/// the string slice it returns holds the decoding of those bytes.
#[verifier::external_body]
fn decode_datagram(datagram: &[u8]) -> (r: Option<String>)
    ensures
        r is Some <==> valid_utf8(datagram@),
        r matches Some(s) ==> s@ == decode_utf8(datagram@),
{
    match std::str::from_utf8(datagram) {
        Ok(s) => Some(s.to_string()),
        Err(_) => None,
    }
}

/// Where a discovery run stands.
#[derive(Debug, PartialEq, Eq, Structural, Clone, Copy)]
pub enum DiscoveryPhase {
    /// Nothing sent yet.
    Idle,
    /// The query text was handed out to be sent.
    Querying,
    /// The query is out; replies are being collected, each wait bounded by
    /// the inactivity timeout.
    Collecting,
    /// A wait timed out with no datagram: the run is over.
    Closed,
}

/// One discovery run. The machine decides; the application performs: it sends
/// the query this machine hands out, feeds in every datagram that arrives,
/// reports the first silent timeout, and finally collects the records.
pub struct Discovery {
    phase: DiscoveryPhase,
    responses: Vec<String>,
    received: Ghost<Seq<Seq<u8>>>,
}

impl Discovery {
    /// Where the run stands.
    pub closed spec fn phase(&self) -> DiscoveryPhase {
        self.phase
    }

    /// Every datagram fed in so far, in arrival order.
    pub closed spec fn received(&self) -> Seq<Seq<u8>> {
        self.received@
    }

    /// The reply texts kept so far, in arrival order.
    pub closed spec fn replies(&self) -> Seq<Seq<char>> {
        string_views(self.responses@)
    }

    /// The replies are exactly the datagrams that decode as text.
    pub open spec fn wf(&self) -> bool {
        self.replies() == decoded_replies(self.received())
    }

    /// A fresh run: nothing sent, nothing received.
    pub fn new() -> (d: Discovery)
        ensures
            d.phase() is Idle,
            d.received() == Seq::<Seq<u8>>::empty(),
            d.wf(),
    {
        let d = Discovery {
            phase: DiscoveryPhase::Idle,
            responses: Vec::new(),
            received: Ghost(Seq::empty()),
        };
        proof {
            assert(d.replies() =~= Seq::<Seq<char>>::empty());
            assert(decoded_replies(d.received()) =~= Seq::<Seq<char>>::empty());
        }
        d
    }

    pub fn current_phase(&self) -> (p: DiscoveryPhase)
        ensures
            p == self.phase(),
    {
        self.phase
    }

    /// Hand out the fixed query text; the application must send it to the
    /// multicast group and then report it sent.
    pub fn query(&mut self) -> (q: String)
        requires
            old(self).phase() is Idle,
        ensures
            final(self).phase() is Querying,
            final(self).received() == old(self).received(),
            final(self).replies() == old(self).replies(),
            final(self).wf() == old(self).wf(),
            q@ == discovery_query(),
    {
        self.phase = DiscoveryPhase::Querying;
        String::from_str(
            "M-SEARCH * HTTP/1.1\r\nHOST: 239.255.255.250:1982\r\nMAN: \"ssdp:discover\"\r\nST: wifi_bulb",
        )
    }

    /// The query datagram went out: start collecting replies.
    pub fn query_sent(&mut self)
        requires
            old(self).phase() is Querying,
        ensures
            final(self).phase() is Collecting,
            final(self).received() == old(self).received(),
            final(self).replies() == old(self).replies(),
            final(self).wf() == old(self).wf(),
    {
        self.phase = DiscoveryPhase::Collecting;
    }

    /// A datagram arrived within the timeout window. It is kept when it
    /// decodes as text and silently dropped otherwise; either way collection
    /// goes on and the next wait starts afresh.
    pub fn on_datagram(&mut self, datagram: &[u8])
        requires
            old(self).phase() is Collecting,
        ensures
            final(self).phase() is Collecting,
            final(self).received() == old(self).received().push(datagram@),
            valid_utf8(datagram@) ==> final(self).replies() == old(self).replies().push(
                decode_utf8(datagram@),
            ),
            !valid_utf8(datagram@) ==> final(self).replies() == old(self).replies(),
            old(self).wf() ==> final(self).wf(),
    {
        let ghost before = self.responses@;
        match decode_datagram(datagram) {
            Some(text) => {
                self.responses.push(text);
                proof {
                    assert(string_views(self.responses@) =~= string_views(before).push(
                        decode_utf8(datagram@),
                    ));
                }
            },
            None => {},
        }
        self.received = Ghost(self.received@.push(datagram@));
        proof {
            assert(self.received@.drop_last() =~= old(self).received());
            assert(self.received@.last() == datagram@);
        }
    }

    /// A whole wait passed in silence: the run is over.
    pub fn on_timeout(&mut self)
        requires
            old(self).phase() is Collecting,
        ensures
            final(self).phase() is Closed,
            final(self).received() == old(self).received(),
            final(self).replies() == old(self).replies(),
            final(self).wf() == old(self).wf(),
    {
        self.phase = DiscoveryPhase::Closed;
    }

    /// The run's result: fatal failure when no reply was kept, otherwise the
    /// deduplicated records in first-seen order.
    pub fn finish(&self) -> (r: Result<Vec<Bulb>, DiscoveryError>)
        requires
            self.phase() is Closed,
        ensures
            r is Ok <==> self.replies().len() > 0,
            r matches Ok(bs) ==> bulb_views(bs@) == bulbs_of_replies(self.replies()),
            r matches Err(e) ==> e == DiscoveryError::DiscoveryEmpty,
    {
        get_bulbs(&self.responses)
    }
}

/// A discovery run succeeds exactly when at least one received datagram
/// decodes as text: with zero replies it fails fatally, while one good reply
/// suffices however many malformed datagrams arrived beside it.
pub proof fn lemma_discovery_outcome(datagrams: Seq<Seq<u8>>)
    ensures
        decoded_replies(datagrams).len() > 0 <==> exists|i: int|
            0 <= i < datagrams.len() && valid_utf8(datagrams[i]),
    decreases datagrams.len(),
{
    if datagrams.len() == 0 {
    } else {
        lemma_discovery_outcome(datagrams.drop_last());
        if valid_utf8(datagrams.last()) {
            assert(valid_utf8(datagrams[datagrams.len() - 1]));
        } else {
            assert(forall|i: int|
                0 <= i < datagrams.len() - 1 ==> datagrams[i] == datagrams.drop_last()[i]);
            if exists|i: int| 0 <= i < datagrams.len() && valid_utf8(datagrams[i]) {
                let i = choose|i: int| 0 <= i < datagrams.len() && valid_utf8(datagrams[i]);
                assert(i < datagrams.len() - 1);
                assert(valid_utf8(datagrams.drop_last()[i]));
            }
        }
    }
}

/// The index of the first record in `bs` that carries this identifier.
pub open spec fn first_with_id(bs: Seq<BulbView>, id: Seq<char>) -> int
    decreases bs.len(),
{
    if bs.len() == 0 {
        0
    } else if bs[0].id == id {
        0int
    } else {
        1 + first_with_id(bs.drop_first(), id)
    }
}

proof fn lemma_first_with_id_props(bs: Seq<BulbView>, id: Seq<char>)
    requires
        has_id(bs, id),
    ensures
        ({
            let f = first_with_id(bs, id);
            &&& 0 <= f < bs.len()
            &&& bs[f].id == id
            &&& forall|j: int| 0 <= j < f ==> bs[j].id != id
        }),
    decreases bs.len(),
{
    if bs[0].id == id {
    } else {
        let tail = bs.drop_first();
        assert(has_id(tail, id)) by {
            let w = choose|w: int| 0 <= w < bs.len() && bs[w].id == id;
            assert(tail[w - 1] == bs[w]);
        }
        lemma_first_with_id_props(tail, id);
        let f = first_with_id(bs, id);
        assert(bs[f] == tail[f - 1]);
        assert forall|j: int| 0 <= j < f implies bs[j].id != id by {
            if j > 0 {
                assert(bs[j] == tail[j - 1]);
            }
        }
    }
}

proof fn lemma_dedup_same_ids(bs: Seq<BulbView>, id: Seq<char>)
    ensures
        has_id(dedup_by_id(bs), id) <==> has_id(bs, id),
    decreases bs.len(),
{
    if bs.len() == 0 {
    } else {
        let front = bs.drop_last();
        lemma_dedup_same_ids(front, id);
        assert(forall|i: int| 0 <= i < bs.len() - 1 ==> bs[i] == front[i]);
        let dfront = dedup_by_id(front);
        if has_id(dfront, bs.last().id) {
            // the last record is dropped, but its id already occurs in front
            if has_id(bs, id) {
                let w = choose|w: int| 0 <= w < bs.len() && bs[w].id == id;
                if w == bs.len() - 1 {
                    assert(has_id(dfront, id));
                } else {
                    assert(has_id(front, id));
                }
            }
        } else {
            let out = dedup_by_id(bs);
            assert(out == dfront.push(bs.last()));
            if has_id(bs, id) {
                let w = choose|w: int| 0 <= w < bs.len() && bs[w].id == id;
                if w == bs.len() - 1 {
                    assert(out[out.len() - 1].id == id);
                } else {
                    assert(has_id(front, id));
                    let v = choose|v: int| 0 <= v < dfront.len() && dfront[v].id == id;
                    assert(out[v].id == id);
                }
            }
            if has_id(out, id) {
                let w = choose|w: int| 0 <= w < out.len() && out[w].id == id;
                if w == out.len() - 1 {
                    assert(bs[bs.len() - 1].id == id);
                } else {
                    assert(has_id(dfront, id));
                }
            }
        }
    }
}

/// Within one run the retained records have pairwise distinct identifiers: no
/// two records of the result share an `id`.
pub proof fn lemma_dedup_ids_unique(bs: Seq<BulbView>)
    ensures
        forall|i: int, j: int|
            0 <= i < j < dedup_by_id(bs).len() ==> dedup_by_id(bs)[i].id != dedup_by_id(bs)[j].id,
    decreases bs.len(),
{
    if bs.len() == 0 {
    } else {
        let front = bs.drop_last();
        lemma_dedup_ids_unique(front);
        let dfront = dedup_by_id(front);
        if !has_id(dfront, bs.last().id) {
            let out = dedup_by_id(bs);
            assert(out == dfront.push(bs.last()));
            assert forall|i: int, j: int| 0 <= i < j < out.len() implies out[i].id != out[j].id by {
                if j == out.len() - 1 {
                    assert(out[i] == dfront[i]);
                    assert(!(dfront[i].id == bs.last().id));
                } else {
                    assert(out[i] == dfront[i]);
                    assert(out[j] == dfront[j]);
                }
            }
        }
    }
}

/// When several replies in one run carry the same identifier, exactly one
/// record with that `id` is retained, and it is the record derived from the
/// first such reply.
pub proof fn lemma_dedup_first_wins(bs: Seq<BulbView>, id: Seq<char>)
    requires
        has_id(bs, id),
    ensures
        has_id(dedup_by_id(bs), id),
        forall|j: int|
            0 <= j < dedup_by_id(bs).len() && dedup_by_id(bs)[j].id == id ==> dedup_by_id(bs)[j]
                == bs[first_with_id(bs, id)],
    decreases bs.len(),
{
    lemma_dedup_same_ids(bs, id);
    lemma_first_with_id_props(bs, id);
    let front = bs.drop_last();
    let dfront = dedup_by_id(front);
    let out = dedup_by_id(bs);
    let f = first_with_id(bs, id);
    assert(forall|i: int| 0 <= i < bs.len() - 1 ==> bs[i] == front[i]);
    if has_id(front, id) {
        lemma_dedup_first_wins(front, id);
        lemma_first_with_id_props(front, id);
        let ff = first_with_id(front, id);
        assert(ff == f) by {
            if ff < f {
                assert(bs[ff].id == id);
            } else if f < ff {
                assert(front[f].id == id);
            }
        }
        if has_id(dfront, bs.last().id) {
            assert(out == dfront);
        } else {
            assert(out == dfront.push(bs.last()));
            assert(bs.last().id != id) by {
                lemma_dedup_same_ids(front, bs.last().id);
            }
            assert forall|j: int| 0 <= j < out.len() && out[j].id == id implies out[j] == bs[f] by {
                assert(j < out.len() - 1);
                assert(out[j] == dfront[j]);
            }
        }
    } else {
        // the identifier enters with the last record
        assert(bs.last().id == id) by {
            let w = choose|w: int| 0 <= w < bs.len() && bs[w].id == id;
            if w < bs.len() - 1 {
                assert(front[w].id == id);
            }
        }
        assert(f == bs.len() - 1) by {
            if f < bs.len() - 1 {
                assert(front[f].id == id);
            }
        }
        assert(!has_id(dfront, bs.last().id)) by {
            lemma_dedup_same_ids(front, id);
        }
        assert(out == dfront.push(bs.last()));
        assert(out[out.len() - 1].id == id);
        assert forall|j: int| 0 <= j < out.len() && out[j].id == id implies out[j] == bs[f] by {
            if j < out.len() - 1 {
                assert(out[j] == dfront[j]);
                assert(has_id(dfront, id));
            }
        }
    }
}

} // verus!
