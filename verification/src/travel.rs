//! Travel between places: where a traveller is, and reading a destination.
use vstd::prelude::*;
use crate::text::{chars_of, parse_u64, parse_u64_spec, slice_range, decimal, lemma_decimal_reads_back, is_digit};

verus! {

/// The kind of space a traveller is in.
#[derive(Debug, Clone, Copy, PartialEq, Eq, Default)]
pub enum SpaceType {
    Road,
    #[default]
    Place,
}

/// A channel identifier written as a number, or as a channel mention
/// `<#number>`.
pub open spec fn parse_channel_id_spec(s: Seq<char>) -> Option<u64> {
    match parse_u64_spec(s) {
        Some(v) => Some(v),
        None => if s.len() >= 3 && s[0] == '<' && s[1] == '#' && s[s.len() - 1] == '>' {
            parse_u64_spec(s.subrange(2, s.len() - 1))
        } else {
            None
        },
    }
}

/// Writing a channel number, alone or as a mention `<#n>`, and reading it
/// back gives the number.
pub proof fn lemma_channel_id_round_trip(n: u64)
    ensures
        parse_channel_id_spec(decimal(n as nat)) == Some(n),
        parse_channel_id_spec(seq!['<', '#'] + decimal(n as nat) + seq!['>']) == Some(n),
{
    lemma_decimal_reads_back(n as nat);
    let d = decimal(n as nat);
    assert(d[0] != '+') by {
        assert(is_digit(d[0]));
    }
    let m = seq!['<', '#'] + d + seq!['>'];
    assert(m[0] == '<');
    assert(!(m.len() > 0 && m[0] == '+'));
    assert(!is_digit(m[0]));
    assert(parse_u64_spec(m) is None);
    assert(m.subrange(2, m.len() - 1) =~= d);
}

/// Reads a channel identifier from a number or a channel mention.
pub fn parse_channel_id(input: &str) -> (r: Option<u64>)
    ensures
        r == parse_channel_id_spec(input@),
{
    let s = chars_of(input);
    match parse_u64(&s) {
        Some(v) => Some(v),
        None => {
            let n = s.len();
            if n >= 3 && s[0] == '<' && s[1] == '#' && s[n - 1] == '>' {
                let inner = slice_range(&s, 2, n - 1);
                parse_u64(&inner)
            } else {
                None
            }
        },
    }
}


/// Whether an end comes no later than another, as `Option<u64>` orders
/// them: no end comes first.
pub open spec fn end_le(a: Option<u64>, b: Option<u64>) -> bool {
    match (a, b) {
        (None, _) => true,
        (Some(_), None) => false,
        (Some(x), Some(y)) => x <= y,
    }
}

/// The position of the first of the modifiers whose end comes first (no
/// end counting as the earliest), as `Iterator::min_by_key` picks it.
pub fn shortest_modifier(ends: &Vec<Option<u64>>) -> (r: Option<usize>)
    ensures
        ends@.len() == 0 <==> r is None,
        r matches Some(i) ==> i < ends@.len()
            && (forall|k: int| 0 <= k < ends@.len() ==> end_le(ends@[i as int], #[trigger] ends@[k]))
            && (forall|k: int| 0 <= k < i ==> !end_le(#[trigger] ends@[k], ends@[i as int])),
{
    if ends.len() == 0 {
        return None;
    }
    let mut best: usize = 0;
    let mut k: usize = 1;
    while k < ends.len()
        invariant
            1 <= k <= ends@.len(),
            best < k,
            forall|j: int| 0 <= j < k ==> end_le(ends@[best as int], #[trigger] ends@[j]),
            forall|j: int| 0 <= j < best ==> !end_le(#[trigger] ends@[j], ends@[best as int]),
        decreases ends@.len() - k,
    {
        let better = match (ends[k], ends[best]) {
            (None, None) => false,
            (None, Some(_)) => true,
            (Some(_), None) => false,
            (Some(x), Some(y)) => x < y,
        };
        if better {
            best = k;
        }
        k = k + 1;
    }
    Some(best)
}

/// The seconds a travel step lasts: until the travel's end, or until the
/// running modifier that ends first stops applying, whichever comes first.
pub open spec fn step_wait_spec(full_time_needed: u64, modifier_end: Option<u64>, now: u64) -> u64 {
    match modifier_end {
        Some(end) => if end > now && end - now < full_time_needed { (end - now) as u64 } else { full_time_needed },
        None => full_time_needed,
    }
}

pub fn step_wait(full_time_needed: u64, modifier_end: Option<u64>, now: u64) -> (w: u64)
    ensures
        w == step_wait_spec(full_time_needed, modifier_end, now),
{
    match modifier_end {
        Some(end) => if end > now && end - now < full_time_needed { end - now } else { full_time_needed },
        None => full_time_needed,
    }
}

/// What a travel's steps read and write, speeds and distances apart: where
/// the traveller is, where it goes and when its current step ends.
#[derive(Debug, Clone, Copy, PartialEq, Eq)]
pub struct TravelLeg {
    pub actual_space_id: u64,
    pub actual_space_type: SpaceType,
    pub is_in_move: bool,
    pub is_end: bool,
    pub step_start_timestamp: Option<u64>,
    pub step_end_timestamp: Option<u64>,
    pub road_role_id: Option<u64>,
    pub road_id: Option<u64>,
    pub destination_id: Option<u64>,
    pub destination_role_id: Option<u64>,
}

/// Why a travel cannot set out, if it cannot: the player is crafting.
pub open spec fn set_out_refusal_spec(crafting: bool) -> Option<Seq<char>> {
    if crafting { Some("travel__cannot_move_while_crafting"@) } else { None }
}

pub fn set_out_refusal(crafting: bool) -> (r: Option<String>)
    ensures
        match (r, set_out_refusal_spec(crafting)) {
            (None, None) => true,
            (Some(a), Some(b)) => a@ == b,
            _ => false,
        },
{
    if crafting {
        Some(String::from_str("travel__cannot_move_while_crafting"))
    } else {
        None
    }
}

impl TravelLeg {
    /// A travel sets out at `now`: under way, not at its end, with a first
    /// step that starts and ends at `now`.
    pub fn set_out(&mut self, now: u64)
        ensures
            *final(self) == (TravelLeg {
                is_in_move: true,
                is_end: false,
                step_start_timestamp: Some(now),
                step_end_timestamp: Some(now),
                ..*old(self)
            }),
    {
        self.is_in_move = true;
        self.is_end = false;
        self.step_start_timestamp = Some(now);
        self.step_end_timestamp = Some(now);
    }

    /// A travel whose last step has ended arrives: the traveller is at its
    /// destination (where it has one), a place, and nothing is under way.
    pub fn arrive(&mut self)
        ensures
            *final(self) == (TravelLeg {
                actual_space_id: match old(self).destination_id {
                    Some(d) => d,
                    None => old(self).actual_space_id,
                },
                actual_space_type: SpaceType::Place,
                is_in_move: false,
                is_end: false,
                step_start_timestamp: None,
                step_end_timestamp: None,
                road_role_id: None,
                road_id: None,
                destination_id: None,
                destination_role_id: None,
            }),
    {
        self.actual_space_id = match self.destination_id {
            Some(d) => d,
            None => self.actual_space_id,
        };
        self.actual_space_type = SpaceType::Place;
        self.road_id = None;
        self.road_role_id = None;
        self.destination_id = None;
        self.destination_role_id = None;
        self.step_end_timestamp = None;
        self.step_start_timestamp = None;
        self.is_in_move = false;
        self.is_end = false;
    }

    /// Nothing of the road is left to travel: the next step is the arrival.
    pub fn reach_end(&mut self)
        ensures
            *final(self) == (TravelLeg {
                is_end: true,
                step_start_timestamp: None,
                step_end_timestamp: None,
                ..*old(self)
            }),
    {
        self.is_end = true;
        self.step_start_timestamp = None;
        self.step_end_timestamp = None;
    }

    /// The next step from `now`, for a travel that needs `full_time_needed`
    /// seconds to its end: it lasts `step_wait`, and it is the last one when
    /// no modifier cuts it short.
    pub fn plan_step(&mut self, full_time_needed: u64, modifier_end: Option<u64>, now: u64)
        requires
            now + step_wait_spec(full_time_needed, modifier_end, now) <= u64::MAX,
        ensures
            *final(self) == (TravelLeg {
                is_end: step_wait_spec(full_time_needed, modifier_end, now) >= full_time_needed,
                step_start_timestamp: Some(now),
                step_end_timestamp: Some((now + step_wait_spec(full_time_needed, modifier_end, now)) as u64),
                ..*old(self)
            }),
    {
        let wait = step_wait(full_time_needed, modifier_end, now);
        self.is_end = wait >= full_time_needed;
        self.step_start_timestamp = Some(now);
        self.step_end_timestamp = Some(now + wait);
    }
}


/// The seconds of the current step travelled by `now`: from the step's
/// start to `now`, or to its end once past it (a missing time counts as
/// `now`).
pub open spec fn step_elapsed_spec(now: u64, start: Option<u64>, end: Option<u64>) -> u64 {
    let s = match start { Some(x) => x, None => now };
    let e = match end { Some(x) => x, None => now };
    let effective = if now < e { now } else { e };
    if effective > s { (effective - s) as u64 } else { 0u64 }
}

pub fn step_elapsed(now: u64, start: Option<u64>, end: Option<u64>) -> (r: u64)
    ensures
        r == step_elapsed_spec(now, start, end),
{
    let s = match start { Some(x) => x, None => now };
    let e = match end { Some(x) => x, None => now };
    let effective = if now < e { now } else { e };
    if effective > s { effective - s } else { 0 }
}


/// A channel of a guild, as the choice of where to greet a traveller reads
/// it: its category, its position in the channel list, and whether a
/// message can be posted in it (a text channel, neither voice nor stage).
#[derive(Debug, Clone, Copy, PartialEq, Eq)]
pub struct ChannelInfo {
    pub id: u64,
    pub parent_id: Option<u64>,
    pub position: u16,
    pub postable: bool,
}

/// Whether channel `k` comes before channel `j` in the list sorted by
/// position, channels of equal position keeping their order (a stable
/// sort, as `sort_by_key` is).
pub open spec fn comes_before(cs: Seq<ChannelInfo>, k: int, j: int) -> bool {
    cs[k].position < cs[j].position || (cs[k].position == cs[j].position && k <= j)
}

pub open spec fn in_category(c: ChannelInfo, category: u64) -> bool {
    c.postable && c.parent_id == Some(category)
}

/// The first channel, in position order, that meets `pred`.
pub open spec fn is_first_such(cs: Seq<ChannelInfo>, k: int, pred: spec_fn(ChannelInfo) -> bool) -> bool {
    &&& 0 <= k < cs.len()
    &&& pred(cs[k])
    &&& forall|j: int| 0 <= j < cs.len() && pred(#[trigger] cs[j]) ==> comes_before(cs, k, j)
}

fn first_such(cs: &Vec<ChannelInfo>, category: Option<u64>) -> (r: Option<usize>)
    ensures
        category matches Some(cat) ==> match r {
            Some(k) => is_first_such(cs@, k as int, |c: ChannelInfo| in_category(c, cat)),
            None => forall|j: int| 0 <= j < cs@.len() ==> !in_category(#[trigger] cs@[j], cat),
        },
        category is None ==> match r {
            Some(k) => is_first_such(cs@, k as int, |c: ChannelInfo| c.postable),
            None => forall|j: int| 0 <= j < cs@.len() ==> !(#[trigger] cs@[j]).postable,
        },
{
    let mut best: Option<usize> = None;
    let mut i: usize = 0;
    while i < cs.len()
        invariant
            i <= cs@.len(),
            category matches Some(cat) ==> match best {
                Some(k) => k < i && in_category(cs@[k as int], cat)
                    && forall|j: int| 0 <= j < i && in_category(#[trigger] cs@[j], cat) ==> comes_before(cs@, k as int, j),
                None => forall|j: int| 0 <= j < i ==> !in_category(#[trigger] cs@[j], cat),
            },
            category is None ==> match best {
                Some(k) => k < i && cs@[k as int].postable
                    && forall|j: int| 0 <= j < i && (#[trigger] cs@[j]).postable ==> comes_before(cs@, k as int, j),
                None => forall|j: int| 0 <= j < i ==> !(#[trigger] cs@[j]).postable,
            },
        decreases cs@.len() - i,
    {
        let c = cs[i];
        let ok = match category {
            Some(cat) => c.postable && c.parent_id == Some(cat),
            None => c.postable,
        };
        if ok {
            match best {
                None => { best = Some(i); },
                Some(k) => {
                    if c.position < cs[k].position {
                        best = Some(i);
                    }
                },
            }
        }
        i = i + 1;
    }
    best
}

/// Where to greet a traveller who arrives at the place of category
/// `destination`: the first channel, in position order, that can take a
/// message and belongs to the category, or else the first that can take a
/// message.
pub fn arrival_channel(cs: &Vec<ChannelInfo>, destination: u64) -> (r: Option<usize>)
    ensures
        match r {
            Some(k) => is_first_such(cs@, k as int, |c: ChannelInfo| in_category(c, destination))
                || ((forall|j: int| 0 <= j < cs@.len() ==> !in_category(#[trigger] cs@[j], destination))
                    && is_first_such(cs@, k as int, |c: ChannelInfo| c.postable)),
            None => forall|j: int| 0 <= j < cs@.len() ==> !(#[trigger] cs@[j]).postable,
        },
{
    match first_such(cs, Some(destination)) {
        Some(k) => Some(k),
        None => first_such(cs, None),
    }
}

/// Which invitations a traveller setting out from guild `guild` receives:
/// one to the road's guild when it is another, and one to the
/// destination's guild when it is neither this guild nor the road's.
pub fn invitations(guild: u64, road_guild: u64, road_server: Option<u64>, destination_server: Option<u64>) -> (r: (bool, Option<u64>))
    ensures
        r.0 == (road_guild != guild),
        r.1 == (match destination_server {
            Some(d) => if d != guild && Some(d) != road_server { Some(d) } else { None::<u64> },
            None => None::<u64>,
        }),
{
    let road = road_guild != guild;
    let dest = match destination_server {
        Some(d) => if d != guild && Some(d) != road_server { Some(d) } else { None },
        None => None,
    };
    (road, dest)
}

/// The first invitation that never expires and has no use limit, given
/// each invitation's maximum age and maximum uses.
pub fn permanent_invite(invites: &Vec<(u32, u32)>) -> (r: Option<usize>)
    ensures
        match r {
            Some(k) => k < invites@.len() && invites@[k as int] == (0u32, 0u32)
                && forall|j: int| 0 <= j < k ==> #[trigger] invites@[j] != (0u32, 0u32),
            None => forall|j: int| 0 <= j < invites@.len() ==> #[trigger] invites@[j] != (0u32, 0u32),
        },
{
    let mut i: usize = 0;
    while i < invites.len()
        invariant
            i <= invites@.len(),
            forall|j: int| 0 <= j < i ==> #[trigger] invites@[j] != (0u32, 0u32),
        decreases invites@.len() - i,
    {
        let (age, uses) = invites[i];
        if age == 0 && uses == 0 {
            return Some(i);
        }
        i = i + 1;
    }
    None
}

} // verus!
