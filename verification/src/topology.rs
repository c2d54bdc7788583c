//! The interfaces of the router and the neighbours behind them.
use vstd::prelude::*;

use crate::addr::{in_cidr, ipv4_in_cidr};
use crate::items::{texts, views};
use crate::table::{get, is_first, lemma_absent, lemma_first, lemma_occurs, position, put, Table};
use crate::text::same_text;

verus! {

/// An interface of the router.
#[derive(Debug, Clone)]
pub struct InterfaceInfo {
    pub ifindex: u32,
    pub name: String,
    pub zone: String,
    pub ipv4_cidrs: Vec<String>,
}

/// What is known of an interface.
#[verifier::ext_equal]
pub struct InterfaceFacts {
    pub ifindex: u32,
    pub name: Seq<char>,
    pub zone: Seq<char>,
    pub ipv4_cidrs: Seq<Seq<char>>,
}

impl View for InterfaceInfo {
    type V = InterfaceFacts;

    open spec fn view(&self) -> InterfaceFacts {
        InterfaceFacts {
            ifindex: self.ifindex,
            name: self.name@,
            zone: self.zone@,
            ipv4_cidrs: texts(self.ipv4_cidrs@),
        }
    }
}

/// The interfaces of the router.
#[derive(Debug, Clone)]
pub struct TopologySnapshot {
    pub interfaces: Vec<InterfaceInfo>,
}

impl View for TopologySnapshot {
    type V = Seq<InterfaceFacts>;

    open spec fn view(&self) -> Seq<InterfaceFacts> {
        views(self.interfaces@)
    }
}

/// Interfaces by index.
pub open spec fn by_index(t: Seq<InterfaceFacts>) -> Seq<(u32, InterfaceFacts)> {
    t.map_values(|i: InterfaceFacts| (i.ifindex, i))
}

/// Interfaces by name.
pub open spec fn by_name(t: Seq<InterfaceFacts>) -> Seq<(Seq<char>, InterfaceFacts)> {
    t.map_values(|i: InterfaceFacts| (i.name, i))
}

/// The first interface with an index.
pub open spec fn interface_at(t: Seq<InterfaceFacts>, ifindex: u32) -> Option<InterfaceFacts> {
    get(by_index(t), ifindex)
}

/// The index of the first interface with a name.
pub open spec fn index_of_name(t: Seq<InterfaceFacts>, name: Seq<char>) -> Option<u32> {
    match get(by_name(t), name) {
        Some(i) => Some(i.ifindex),
        None => None,
    }
}

/// Interfaces of one name have one index.
pub open spec fn names_apart(t: Seq<InterfaceFacts>) -> bool {
    forall|i: int, j: int|
        0 <= i < t.len() && 0 <= j < t.len() && (#[trigger] t[i]).name == (#[trigger] t[j]).name
            ==> t[i].ifindex == t[j].ifindex
}

/// Where interfaces of one name have one index, the name of an interface tells its index.
pub proof fn law_name_tells_index(t: Seq<InterfaceFacts>, a: u32, b: u32)
    requires
        names_apart(t),
        interface_at(t, a) matches Some(x) && interface_at(t, b) matches Some(y) && x.name
            == y.name,
    ensures
        a == b,
{
    let i = position(by_index(t), a);
    let j = position(by_index(t), b);
    assert(is_first(by_index(t), a, i));
    assert(is_first(by_index(t), b, j));
    assert(t[i].name == t[j].name);
}

impl TopologySnapshot {
    /// The first interface with an index.
    pub fn by_ifindex(&self, ifindex: u32) -> (r: Option<&InterfaceInfo>)
        ensures
            match r {
                Some(i) => interface_at(self@, ifindex) == Some(i@),
                None => interface_at(self@, ifindex) is None,
            },
    {
        let ghost all = by_index(self@);
        let n = self.interfaces.len();
        let mut i: usize = 0;
        while i < n
            invariant
                i <= n,
                n == self.interfaces@.len(),
                all == by_index(self@),
                forall|j: int| 0 <= j < i ==> (#[trigger] all[j]).0 != ifindex,
            decreases n - i,
        {
            assert(all[i as int] == (self.interfaces@[i as int].ifindex, self.interfaces@[i as int]@));
            if self.interfaces[i].ifindex == ifindex {
                proof {
                    assert(is_first(all, ifindex, i as int));
                    lemma_first(all, ifindex, i as int);
                }
                return Some(&self.interfaces[i]);
            }
            i += 1;
        }
        proof {
            lemma_absent(all, ifindex);
        }
        None
    }

    /// The index of the first interface with a name.
    pub fn ifindex_by_name(&self, name: &str) -> (r: Option<u32>)
        ensures
            r == index_of_name(self@, name@),
    {
        let ghost all = by_name(self@);
        let n = self.interfaces.len();
        let mut i: usize = 0;
        while i < n
            invariant
                i <= n,
                n == self.interfaces@.len(),
                all == by_name(self@),
                forall|j: int| 0 <= j < i ==> (#[trigger] all[j]).0 != name@,
            decreases n - i,
        {
            assert(all[i as int] == (self.interfaces@[i as int].name@, self.interfaces@[i as int]@));
            if same_text(self.interfaces[i].name.as_str(), name) {
                proof {
                    assert(is_first(all, name@, i as int));
                    lemma_first(all, name@, i as int);
                }
                return Some(self.interfaces[i].ifindex);
            }
            i += 1;
        }
        proof {
            lemma_absent(all, name@);
        }
        None
    }
}

/// The index of each name, of the last interface that has it.
pub open spec fn name_index(t: Seq<InterfaceFacts>) -> Seq<(Seq<char>, u32)>
    decreases t.len(),
{
    if t.len() == 0 {
        Seq::empty()
    } else {
        put(name_index(t.drop_last()), t.last().name, t.last().ifindex)
    }
}

/// The index of each name, of the last interface that has it.
pub fn index_names(topology: &TopologySnapshot) -> (r: Table<String, u32>)
    ensures
        r.model() == name_index(topology@),
{
    let mut r: Table<String, u32> = Table::new();
    let n = topology.interfaces.len();
    let mut i: usize = 0;
    while i < n
        invariant
            i <= n,
            n == topology.interfaces@.len(),
            r.model() == name_index(topology@.take(i as int)),
        decreases n - i,
    {
        let info = &topology.interfaces[i];
        r.put(info.name.clone(), info.ifindex);
        i += 1;
        assert(topology@.take(i as int).drop_last() =~= topology@.take(i - 1));
        assert(topology@[i - 1] == info@);
    }
    assert(topology@.take(i as int) =~= topology@);
    r
}

/// The first of some networks that an address lies in, or nothing.
pub open spec fn subnet_among(cidrs: Seq<Seq<char>>, ip: Seq<char>) -> Seq<char>
    decreases cidrs.len(),
{
    if cidrs.len() == 0 {
        Seq::empty()
    } else if in_cidr(ip, cidrs[0]) {
        cidrs[0]
    } else {
        subnet_among(cidrs.drop_first(), ip)
    }
}

/// The first of some networks that an address lies in, or an empty text.
pub fn subnet_of(cidrs: &Vec<String>, ip: &str) -> (r: String)
    ensures
        r@ == subnet_among(texts(cidrs@), ip@),
{
    let n = cidrs.len();
    let mut i: usize = 0;
    let ghost all = texts(cidrs@);
    assert(all.subrange(0, all.len() as int) =~= all);
    while i < n
        invariant
            i <= n,
            n == cidrs@.len(),
            all == texts(cidrs@),
            subnet_among(all, ip@) == subnet_among(all.subrange(i as int, n as int), ip@),
        decreases n - i,
    {
        let ghost rest = all.subrange(i as int, n as int);
        assert(rest[0] == cidrs@[i as int]@);
        if ipv4_in_cidr(ip, cidrs[i].as_str()) {
            return cidrs[i].clone();
        }
        assert(rest.drop_first() =~= all.subrange(i + 1, n as int));
        i += 1;
    }
    let r = String::new();
    assert(r@ =~= Seq::empty());
    r
}

/// How much a neighbour state says about the neighbour being there.
pub open spec fn state_rank(state: Seq<char>) -> nat {
    if state == "REACHABLE"@ {
        6
    } else if state == "PERMANENT"@ {
        5
    } else if state == "DELAY"@ {
        4
    } else if state == "PROBE"@ {
        3
    } else if state == "STALE"@ {
        2
    } else if state.len() > 0 {
        1
    } else {
        0
    }
}

/// The state of two that says more; the first of two that say the same.
pub open spec fn better_state(current: Seq<char>, candidate: Seq<char>) -> Seq<char> {
    if state_rank(candidate) > state_rank(current) {
        candidate
    } else {
        current
    }
}

/// How much a neighbour state says about the neighbour being there.
pub fn neighbor_state_rank(state: &str) -> (r: u32)
    ensures
        r == state_rank(state@),
{
    if same_text(state, "REACHABLE") {
        6
    } else if same_text(state, "PERMANENT") {
        5
    } else if same_text(state, "DELAY") {
        4
    } else if same_text(state, "PROBE") {
        3
    } else if same_text(state, "STALE") {
        2
    } else if same_text(state, "") {
        proof {
            reveal_strlit("");
            reveal_strlit("REACHABLE");
            reveal_strlit("PERMANENT");
            reveal_strlit("DELAY");
            reveal_strlit("PROBE");
            reveal_strlit("STALE");
        }
        0
    } else {
        proof {
            reveal_strlit("");
            if state@.len() == 0 {
                assert(state@ =~= ""@);
            }
        }
        1
    }
}

/// The state of two that says more about a neighbour being there.
pub fn pick_best_neighbor_state(current: &str, candidate: &str) -> (r: String)
    ensures
        r@ == better_state(current@, candidate@),
{
    if neighbor_state_rank(candidate) > neighbor_state_rank(current) {
        candidate.to_string()
    } else {
        current.to_string()
    }
}

/// The network of an address is the first of the networks that it lies in; where it lies in none,
/// there is none.
pub proof fn law_first_network(cidrs: Seq<Seq<char>>, ip: Seq<char>)
    ensures
        (forall|i: int| 0 <= i < cidrs.len() ==> !in_cidr(ip, #[trigger] cidrs[i]))
            ==> subnet_among(cidrs, ip).len() == 0,
        forall|i: int|
            0 <= i < cidrs.len() && in_cidr(ip, #[trigger] cidrs[i]) && (forall|j: int|
                0 <= j < i ==> !in_cidr(ip, #[trigger] cidrs[j])) ==> subnet_among(cidrs, ip)
                == cidrs[i],
    decreases cidrs.len(),
{
    if cidrs.len() > 0 {
        let rest = cidrs.drop_first();
        law_first_network(rest, ip);
        assert forall|i: int| 0 <= i < rest.len() implies #[trigger] rest[i] == cidrs[i + 1] by {}
        if forall|i: int| 0 <= i < cidrs.len() ==> !in_cidr(ip, #[trigger] cidrs[i]) {
            assert(!in_cidr(ip, cidrs[0]));
            assert forall|i: int| 0 <= i < rest.len() implies !in_cidr(ip, #[trigger] rest[i]) by {
                assert(!in_cidr(ip, cidrs[i + 1]));
            }
        }
        assert forall|i: int|
            0 <= i < cidrs.len() && in_cidr(ip, #[trigger] cidrs[i]) && (forall|j: int|
                0 <= j < i ==> !in_cidr(ip, #[trigger] cidrs[j])) implies subnet_among(cidrs, ip)
            == cidrs[i] by {
            if i > 0 {
                assert(!in_cidr(ip, cidrs[0]));
                assert(rest[i - 1] == cidrs[i]);
                assert forall|j: int| 0 <= j < i - 1 implies !in_cidr(ip, #[trigger] rest[j]) by {
                    assert(!in_cidr(ip, cidrs[j + 1]));
                }
            }
        }
    }
}

/// A neighbour that answers says most, then one that is set, one that is waited for, one that is
/// asked, one that has not been heard of for long, any other state, and no state at all.
pub proof fn law_states_in_order(other: Seq<char>)
    requires
        other != "REACHABLE"@,
        other != "PERMANENT"@,
        other != "DELAY"@,
        other != "PROBE"@,
        other != "STALE"@,
        other.len() > 0,
    ensures
        state_rank("REACHABLE"@) > state_rank("PERMANENT"@) > state_rank("DELAY"@) > state_rank(
            "PROBE"@,
        ) > state_rank("STALE"@) > state_rank(other) > state_rank(Seq::empty()),
{
    reveal_strlit("REACHABLE");
    reveal_strlit("PERMANENT");
    reveal_strlit("DELAY");
    reveal_strlit("PROBE");
    reveal_strlit("STALE");
    assert("REACHABLE"@[0] == 'R');
    assert("PERMANENT"@[0] == 'P' && "PERMANENT"@.len() == 9);
    assert("DELAY"@[0] == 'D');
    assert("PROBE"@[0] == 'P' && "PROBE"@.len() == 5);
    assert("STALE"@[0] == 'S');
}

/// Of two states the one that says more is taken, and the first where neither does.
pub proof fn law_better_of_two(current: Seq<char>, candidate: Seq<char>)
    ensures
        state_rank(candidate) > state_rank(current) ==> better_state(current, candidate)
            == candidate,
        state_rank(candidate) <= state_rank(current) ==> better_state(current, candidate)
            == current,
        state_rank(better_state(current, candidate)) >= state_rank(current),
        state_rank(better_state(current, candidate)) >= state_rank(candidate),
{
}

/// An interface is found by its index and an index by its name: the first that has it, and none
/// only where no interface has it.
pub proof fn law_interfaces_are_found(t: Seq<InterfaceFacts>, i: int)
    requires
        0 <= i < t.len(),
    ensures
        interface_at(t, t[i].ifindex) matches Some(info) && info.ifindex == t[i].ifindex,
        (forall|j: int| 0 <= j < i ==> (#[trigger] t[j]).ifindex != t[i].ifindex) ==> interface_at(
            t,
            t[i].ifindex,
        ) == Some(t[i]),
        index_of_name(t, t[i].name) is Some,
        (forall|j: int| 0 <= j < i ==> (#[trigger] t[j]).name != t[i].name) ==> index_of_name(
            t,
            t[i].name,
        ) == Some(t[i].ifindex),
{
    let a = by_index(t);
    let b = by_name(t);
    lemma_occurs(a, i);
    lemma_occurs(b, i);
    let p = position(a, t[i].ifindex);
    let q = position(b, t[i].name);
    assert(is_first(a, t[i].ifindex, p));
    assert(is_first(b, t[i].name, q));
    assert(a[p].0 == t[p].ifindex && b[q].0 == t[q].name);
    if p > i {
        assert(a[i].0 == t[i].ifindex);
    }
    if q > i {
        assert(b[i].0 == t[i].name);
    }
}


/// What is known of an interface is what it holds.
pub proof fn law_interface_facts(i: InterfaceInfo, t: TopologySnapshot, k: int)
    ensures
        i@.ifindex == i.ifindex && i@.name == i.name@ && i@.zone == i.zone@,
        i@.ipv4_cidrs.len() == i.ipv4_cidrs@.len(),
        forall|j: int|
            0 <= j < i.ipv4_cidrs@.len() ==> (#[trigger] i@.ipv4_cidrs[j]) == i.ipv4_cidrs@[j]@,
        t@.len() == t.interfaces@.len(),
        0 <= k < t.interfaces@.len() ==> t@[k] == t.interfaces@[k]@,
{
}


} // verus!
