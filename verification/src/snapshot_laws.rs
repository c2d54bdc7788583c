//! What a snapshot shows of interfaces and addresses, said of the counters that were read.
use vstd::prelude::*;

use crate::addr::key_ip_text;
use crate::binary64::rate_of;
use crate::common::{InterfaceTrafficKey, IpTrafficKey, TrafficValue};
use crate::counters::{bytes_in, capped, is_lane, law_lanes_add, quad_add, rate_in, zero_quad};
use crate::items::{texts, InterfaceShown, IpShown};
use crate::runtime::{
    counted, gone_up, lane_bytes, lane_rates, law_readings_are_counted, IfaceCounter, IpCounter,
    Ledger, Reading, RuntimeModel,
};
use crate::snapshot::{
    elapsed_since, iface_reading, interface_pass, ip_pass, law_interface_totals_grow,
    law_ip_totals_carry_on, of_interface, snapshot_pass, watched, SnapshotInput,
};
use crate::table::{
    get, get_or, is_first, law_put_get, law_put_get_other, law_put_keeps_unique, lemma_absent,
    lemma_occurs, position, put, unique_keys,
};
use crate::text::lower;
use crate::topology::{by_index, interface_at, InterfaceFacts};

verus! {

/// The time since the last snapshot and the time of that snapshot make the time of this one; for
/// the first snapshot a second is taken to have passed.
pub proof fn law_time_since_last(last_snapshot_ms: Option<u64>, now_ms: u64)
    requires
        last_snapshot_ms matches Some(last) ==> last <= now_ms,
    ensures
        last_snapshot_ms matches Some(last) ==> last + elapsed_since(last_snapshot_ms, now_ms)
            == now_ms,
        last_snapshot_ms is None ==> elapsed_since(last_snapshot_ms, now_ms) == 1000,
{
}

/// No counter is read twice.
pub open spec fn iface_reads_apart(readings: Seq<(InterfaceTrafficKey, TrafficValue)>) -> bool {
    forall|i: int, j: int|
        0 <= i < readings.len() && 0 <= j < readings.len() && (#[trigger] readings[i]).0.ifindex == (
        #[trigger] readings[j]).0.ifindex && readings[i].0.ip_version == readings[j].0.ip_version
            && readings[i].0.direction == readings[j].0.direction && readings[i].0._pad@
            == readings[j].0._pad@ ==> i == j
}

/// The bytes that the readings of an interface add for an IP version and direction.
pub open spec fn iface_bytes(
    readings: Seq<(InterfaceTrafficKey, TrafficValue)>,
    prev: Seq<(IfaceCounter, u64)>,
    ifindex: u32,
    ip_version: u8,
    direction: u8,
) -> int
    decreases readings.len(),
{
    if readings.len() == 0 {
        0
    } else {
        let (k, v) = readings.last();
        iface_bytes(readings.drop_last(), prev, ifindex, ip_version, direction) + if (
            k.ifindex,
            k.ip_version,
            k.direction,
        ) == (ifindex, ip_version, direction) {
            gone_up(v.bytes, get_or(prev, k@, 0))
        } else {
            0
        }
    }
}

/// The rates of what the readings of an interface add for an IP version and direction, added up.
pub open spec fn iface_rates(
    readings: Seq<(InterfaceTrafficKey, TrafficValue)>,
    prev: Seq<(IfaceCounter, u64)>,
    elapsed_ms: u64,
    ifindex: u32,
    ip_version: u8,
    direction: u8,
) -> int
    decreases readings.len(),
{
    if readings.len() == 0 {
        0
    } else {
        let (k, v) = readings.last();
        iface_rates(readings.drop_last(), prev, elapsed_ms, ifindex, ip_version, direction) + if (
            k.ifindex,
            k.ip_version,
            k.direction,
        ) == (ifindex, ip_version, direction) {
            rate_of(gone_up(v.bytes, get_or(prev, k@, 0)) as u64, elapsed_ms) as int
        } else {
            0
        }
    }
}

proof fn lemma_of_interface(
    readings: Seq<(InterfaceTrafficKey, TrafficValue)>,
    prev: Seq<(IfaceCounter, u64)>,
    elapsed_ms: u64,
    ifindex: u32,
)
    requires
        iface_reads_apart(readings),
    ensures
        ({
            let of = of_interface(readings, ifindex);
            &&& unique_keys(of)
            &&& forall|i: int|
                #![trigger of[i]]
                0 <= i < of.len() ==> of[i].0.0 == ifindex && exists|j: int|
                    0 <= j < readings.len() && (#[trigger] readings[j]).0@ == of[i].0
            &&& forall|j: int|
                #![trigger readings[j]]
                0 <= j < readings.len() && readings[j].0.ifindex == ifindex ==> exists|i: int|
                    0 <= i < of.len() && (#[trigger] of[i]).0 == readings[j].0@ && of[i].1.2
                        == readings[j].1.bytes
            &&& forall|v: u8, d: u8|
                #![trigger lane_bytes(of, prev, v, d)]
                lane_bytes(of, prev, v, d) == iface_bytes(readings, prev, ifindex, v, d)
            &&& forall|v: u8, d: u8|
                #![trigger lane_rates(of, prev, elapsed_ms, v, d)]
                lane_rates(of, prev, elapsed_ms, v, d) == iface_rates(
                    readings,
                    prev,
                    elapsed_ms,
                    ifindex,
                    v,
                    d,
                )
        }),
    decreases readings.len(),
{
    let of = of_interface(readings, ifindex);
    if readings.len() > 0 {
        let init = readings.drop_last();
        let n = readings.len() - 1;
        assert forall|i: int| 0 <= i < init.len() implies (#[trigger] init[i]) == readings[i] by {}
        assert(iface_reads_apart(init));
        lemma_of_interface(init, prev, elapsed_ms, ifindex);
        let before = of_interface(init, ifindex);
        let (k, v) = readings.last();
        assert(readings[n] == (k, v));
        assert forall|i: int| 0 <= i < before.len() implies (#[trigger] before[i]).0 != k@ by {
            let j = choose|j: int| 0 <= j < init.len() && (#[trigger] init[j]).0@ == before[i].0;
            assert(readings[j].0@ != readings[n].0@);
        }
        if k.ifindex == ifindex {
            assert(of.drop_last() =~= before);
            assert(of.last() == iface_reading((k, v)));
            assert(of[before.len() as int] == iface_reading((k, v)));
        }
        assert forall|i: int| #![trigger of[i]] 0 <= i < of.len() implies of[i].0.0 == ifindex
            && exists|j: int|
            0 <= j < readings.len() && (#[trigger] readings[j]).0@ == of[i].0 by {
            if i < before.len() {
                assert(of[i] == before[i]);
                let j = choose|j: int|
                    0 <= j < init.len() && (#[trigger] init[j]).0@ == before[i].0;
                assert(readings[j].0@ == of[i].0);
            } else {
                assert(readings[n].0@ == of[i].0);
            }
        }
        assert forall|j: int|
            #![trigger readings[j]]
            0 <= j < readings.len() && readings[j].0.ifindex == ifindex implies exists|i: int|
            0 <= i < of.len() && (#[trigger] of[i]).0 == readings[j].0@ && of[i].1.2
                == readings[j].1.bytes by {
            if j < n {
                assert(init[j] == readings[j]);
                let i = choose|i: int|
                    0 <= i < before.len() && (#[trigger] before[i]).0 == init[j].0@
                        && before[i].1.2 == init[j].1.bytes;
                assert(of[i] == before[i]);
            }
        }
        assert forall|v: u8, d: u8|
            #![trigger lane_bytes(of, prev, v, d)]
            lane_bytes(of, prev, v, d) == iface_bytes(readings, prev, ifindex, v, d) by {
            assert(lane_bytes(before, prev, v, d) == iface_bytes(init, prev, ifindex, v, d));
        }
        assert forall|v: u8, d: u8|
            #![trigger lane_rates(of, prev, elapsed_ms, v, d)]
            lane_rates(of, prev, elapsed_ms, v, d) == iface_rates(
                readings,
                prev,
                elapsed_ms,
                ifindex,
                v,
                d,
            ) by {
            assert(lane_rates(before, prev, elapsed_ms, v, d) == iface_rates(
                init,
                prev,
                elapsed_ms,
                ifindex,
                v,
                d,
            ));
        }
    }
}

proof fn lemma_iface_bytes_same(
    readings: Seq<(InterfaceTrafficKey, TrafficValue)>,
    a: Seq<(IfaceCounter, u64)>,
    b: Seq<(IfaceCounter, u64)>,
    elapsed_ms: u64,
    ifindex: u32,
    ip_version: u8,
    direction: u8,
)
    requires
        forall|k: IfaceCounter| k.0 == ifindex ==> #[trigger] get(a, k) == get(b, k),
    ensures
        iface_bytes(readings, a, ifindex, ip_version, direction) == iface_bytes(
            readings,
            b,
            ifindex,
            ip_version,
            direction,
        ),
        iface_rates(readings, a, elapsed_ms, ifindex, ip_version, direction) == iface_rates(
            readings,
            b,
            elapsed_ms,
            ifindex,
            ip_version,
            direction,
        ),
    decreases readings.len(),
{
    if readings.len() > 0 {
        lemma_iface_bytes_same(
            readings.drop_last(),
            a,
            b,
            elapsed_ms,
            ifindex,
            ip_version,
            direction,
        );
        let k = readings.last().0@;
        if k.0 == ifindex {
            assert(get(a, k) == get(b, k));
        }
    }
}

/// An interface with this index is known and watched.
pub open spec fn watched_index(
    topology: Seq<InterfaceFacts>,
    monitored: Seq<Seq<char>>,
    ifindex: u32,
) -> bool {
    exists|j: int|
        0 <= j < topology.len() && (#[trigger] topology[j]).ifindex == ifindex && watched(
            monitored,
            topology[j].name,
        )
}

/// A counter of an interface that is watched is remembered as it was read; any other is
/// remembered as before.
pub proof fn law_interface_counters_are_kept(
    topology: Seq<InterfaceFacts>,
    monitored: Seq<Seq<char>>,
    readings: Seq<(InterfaceTrafficKey, TrafficValue)>,
    elapsed_ms: u64,
    ledger: Ledger<IfaceCounter, u32>,
    key: IfaceCounter,
)
    requires
        iface_reads_apart(readings),
    ensures
        ({
            let after = interface_pass(topology, monitored, readings, elapsed_ms, ledger).0;
            &&& forall|r: int|
                0 <= r < readings.len() && (#[trigger] readings[r]).0@ == key && watched_index(
                    topology,
                    monitored,
                    key.0,
                ) ==> get(after.prev, key) == Some(readings[r].1.bytes)
            &&& !watched_index(topology, monitored, key.0) || (forall|r: int|
                0 <= r < readings.len() ==> (#[trigger] readings[r]).0@ != key) ==> get(
                after.prev,
                key,
            ) == get(ledger.prev, key)
        }),
    decreases topology.len(),
{
    if topology.len() > 0 {
        let init = topology.drop_last();
        let n = topology.len() - 1;
        law_interface_counters_are_kept(init, monitored, readings, elapsed_ms, ledger, key);
        let before = interface_pass(init, monitored, readings, elapsed_ms, ledger).0;
        let after = interface_pass(topology, monitored, readings, elapsed_ms, ledger).0;
        let iface = topology.last();
        assert(topology[n] == iface);
        if watched_index(init, monitored, key.0) {
            let j = choose|j: int|
                0 <= j < init.len() && (#[trigger] init[j]).ifindex == key.0 && watched(
                    monitored,
                    init[j].name,
                );
            assert(topology[j] == init[j]);
        }
        if watched_index(topology, monitored, key.0) && !watched_index(init, monitored, key.0) {
            let j = choose|j: int|
                0 <= j < topology.len() && (#[trigger] topology[j]).ifindex == key.0 && watched(
                    monitored,
                    topology[j].name,
                );
            if j < n {
                assert(init[j] == topology[j]);
            }
            assert(j == n);
        }
        if watched(monitored, iface.name) {
            let of = of_interface(readings, iface.ifindex);
            lemma_of_interface(readings, before.prev, elapsed_ms, iface.ifindex);
            law_readings_are_counted(before.prev, of, elapsed_ms);
            assert(after.prev == counted(before.prev, of, elapsed_ms).0);
            assert(watched_index(topology, monitored, iface.ifindex));
            if key.0 == iface.ifindex {
                assert forall|r: int|
                    0 <= r < readings.len() && (#[trigger] readings[r]).0@ == key implies get(
                    after.prev,
                    key,
                ) == Some(readings[r].1.bytes) by {
                    assert(readings[r].0.ifindex == iface.ifindex);
                    let i = choose|i: int|
                        0 <= i < of.len() && (#[trigger] of[i]).0 == readings[r].0@ && of[i].1.2
                            == readings[r].1.bytes;
                    assert(get(after.prev, of[i].0) == Some(of[i].1.2));
                }
                if forall|r: int| 0 <= r < readings.len() ==> (#[trigger] readings[r]).0@ != key {
                    assert forall|i: int| 0 <= i < of.len() implies (#[trigger] of[i]).0 != key by {
                        let j = choose|j: int|
                            0 <= j < readings.len() && (#[trigger] readings[j]).0@ == of[i].0;
                        assert(readings[j].0@ != key);
                    }
                }
            } else {
                assert forall|i: int| 0 <= i < of.len() implies (#[trigger] of[i]).0 != key by {}
            }
        }
    }
}

/// `item` shows an interface: its name, its zone in lower case, what every counter that was read
/// for its index adds, of both directions and both IP versions, and the total before with that
/// added.
pub open spec fn shows_interface(
    item: InterfaceShown,
    iface: InterfaceFacts,
    readings: Seq<(InterfaceTrafficKey, TrafficValue)>,
    elapsed_ms: u64,
    ledger: Ledger<IfaceCounter, u32>,
) -> bool {
    let total = get_or(ledger.totals, iface.ifindex, zero_quad());
    &&& item.ifindex == iface.ifindex
    &&& item.ifname == iface.name
    &&& item.zone == lower(iface.zone)
    &&& forall|ip_version: u8, direction: u8|
        #![trigger bytes_in(item.metrics, ip_version, direction)]
        is_lane(ip_version, direction) ==> {
            let bytes = iface_bytes(
                readings,
                ledger.prev,
                iface.ifindex,
                ip_version,
                direction,
            );
            let rate = iface_rates(
                readings,
                ledger.prev,
                elapsed_ms,
                iface.ifindex,
                ip_version,
                direction,
            );
            &&& bytes_in(item.metrics, ip_version, direction) == capped(bytes)
            &&& rate_in(item.metrics, ip_version, direction) == capped(rate)
            &&& bytes_in(item.cumulative, ip_version, direction) == capped(
                bytes_in(total, ip_version, direction) + capped(bytes),
            )
            &&& rate_in(item.cumulative, ip_version, direction) == capped(
                rate_in(total, ip_version, direction) + capped(rate),
            )
        }
}

/// The interfaces that are watched, in order.
pub open spec fn watched_among(
    topology: Seq<InterfaceFacts>,
    monitored: Seq<Seq<char>>,
) -> Seq<InterfaceFacts> {
    topology.filter(|i: InterfaceFacts| monitored.len() == 0 || monitored.contains(i.name))
}

/// The interfaces of a snapshot are those that are watched, in order, and each shows what was read
/// for its index, where each interface has its own index and no counter is read twice.
pub proof fn law_snapshot_interfaces(
    topology: Seq<InterfaceFacts>,
    monitored: Seq<Seq<char>>,
    readings: Seq<(InterfaceTrafficKey, TrafficValue)>,
    elapsed_ms: u64,
    ledger: Ledger<IfaceCounter, u32>,
)
    requires
        unique_keys(by_index(topology)),
        iface_reads_apart(readings),
    ensures
        ({
            let items = interface_pass(topology, monitored, readings, elapsed_ms, ledger).1;
            let shown = watched_among(topology, monitored);
            &&& items.len() == shown.len()
            &&& forall|i: int|
                0 <= i < items.len() ==> shows_interface(
                    #[trigger] items[i],
                    shown[i],
                    readings,
                    elapsed_ms,
                    ledger,
                )
        }),
    decreases topology.len(),
{
    reveal(Seq::filter);
    let (after, items) = interface_pass(topology, monitored, readings, elapsed_ms, ledger);
    law_interface_totals_grow(topology, monitored, readings, elapsed_ms, ledger);
    if topology.len() > 0 {
        let init = topology.drop_last();
        let n = topology.len() - 1;
        let iface = topology.last();
        assert(topology[n] == iface);
        let all = by_index(topology);
        let some = by_index(init);
        assert forall|i: int| 0 <= i < some.len() implies (#[trigger] some[i]) == all[i] by {}
        assert(unique_keys(some));
        law_snapshot_interfaces(init, monitored, readings, elapsed_ms, ledger);
        let (before, shown) = interface_pass(init, monitored, readings, elapsed_ms, ledger);
        if watched(monitored, iface.name) {
            let of = of_interface(readings, iface.ifindex);
            assert(!watched_index(init, monitored, iface.ifindex)) by {
                if watched_index(init, monitored, iface.ifindex) {
                    let j = choose|j: int|
                        0 <= j < init.len() && (#[trigger] init[j]).ifindex == iface.ifindex
                            && watched(monitored, init[j].name);
                    assert(all[j].0 == all[n].0);
                }
            }
            assert forall|k: IfaceCounter| k.0 == iface.ifindex implies #[trigger] get(
                before.prev,
                k,
            ) == get(ledger.prev, k) by {
                law_interface_counters_are_kept(
                    init,
                    monitored,
                    readings,
                    elapsed_ms,
                    ledger,
                    k,
                );
            }
            lemma_of_interface(readings, before.prev, elapsed_ms, iface.ifindex);
            law_readings_are_counted(before.prev, of, elapsed_ms);
            let item = items.last();
            assert(items[items.len() - 1] == item);
            let total = get_or(ledger.totals, iface.ifindex, zero_quad());
            assert(item.cumulative == quad_add(total, item.metrics));
            assert(item.metrics == counted(before.prev, of, elapsed_ms).1);
            assert forall|v: u8, d: u8|
                #![trigger bytes_in(item.metrics, v, d)]
                is_lane(v, d) implies {
                let bytes = iface_bytes(readings, ledger.prev, iface.ifindex, v, d);
                let rate = iface_rates(readings, ledger.prev, elapsed_ms, iface.ifindex, v, d);
                &&& bytes_in(item.metrics, v, d) == capped(bytes)
                &&& rate_in(item.metrics, v, d) == capped(rate)
                &&& bytes_in(item.cumulative, v, d) == capped(bytes_in(total, v, d) + capped(bytes))
                &&& rate_in(item.cumulative, v, d) == capped(rate_in(total, v, d) + capped(rate))
            } by {
                lemma_iface_bytes_same(
                    readings,
                    before.prev,
                    ledger.prev,
                    elapsed_ms,
                    iface.ifindex,
                    v,
                    d,
                );
                law_lanes_add(total, item.metrics, v, d);
            }
            assert(shows_interface(item, iface, readings, elapsed_ms, ledger));
            assert forall|i: int| 0 <= i < items.len() implies shows_interface(
                #[trigger] items[i],
                watched_among(topology, monitored)[i],
                readings,
                elapsed_ms,
                ledger,
            ) by {
                if i < shown.len() {
                    assert(items[i] == shown[i]);
                }
            }
        }
    }
}

/// No counter is read twice.
pub open spec fn ip_reads_apart(readings: Seq<(IpTrafficKey, TrafficValue)>) -> bool {
    forall|i: int, j: int|
        0 <= i < readings.len() && 0 <= j < readings.len() && (#[trigger] readings[i]).0.ifindex == (
        #[trigger] readings[j]).0.ifindex && readings[i].0.ip_version == readings[j].0.ip_version
            && readings[i].0.direction == readings[j].0.direction && readings[i].0.ip_addr@
            == readings[j].0.ip_addr@ ==> i == j
}

/// The name of the interface with an index; no name where it is not known.
pub open spec fn name_at(topology: Seq<InterfaceFacts>, ifindex: u32) -> Seq<char> {
    match interface_at(topology, ifindex) {
        Some(info) => info.name,
        None => Seq::empty(),
    }
}

/// A reading is of an address behind an interface that is watched.
pub open spec fn ip_read(
    k: IpTrafficKey,
    topology: Seq<InterfaceFacts>,
    monitored: Seq<Seq<char>>,
    ifindex: u32,
    ip: Seq<char>,
) -> bool {
    &&& k.ifindex == ifindex
    &&& key_ip_text(k.ip_version, k.ip_addr@) == ip
    &&& monitored.len() == 0 || monitored.contains(name_at(topology, ifindex))
}

/// A reading counts for this IP version and direction: what is not marked as version 4 is
/// version 6, and what does not come in goes out.
pub open spec fn ip_lane(k: IpTrafficKey, ip_version: u8, direction: u8) -> bool {
    &&& ip_version == 4 <==> k.ip_version == 4
    &&& direction == 1 <==> k.direction == 1
}

/// The bytes that the readings of an address add for an IP version and direction.
pub open spec fn ip_bytes(
    readings: Seq<(IpTrafficKey, TrafficValue)>,
    topology: Seq<InterfaceFacts>,
    monitored: Seq<Seq<char>>,
    prev: Seq<(IpCounter, u64)>,
    ifindex: u32,
    ip: Seq<char>,
    ip_version: u8,
    direction: u8,
) -> int
    decreases readings.len(),
{
    if readings.len() == 0 {
        0
    } else {
        let (k, v) = readings.last();
        ip_bytes(
            readings.drop_last(),
            topology,
            monitored,
            prev,
            ifindex,
            ip,
            ip_version,
            direction,
        ) + if ip_read(k, topology, monitored, ifindex, ip) && ip_lane(k, ip_version, direction) {
            gone_up(v.bytes, get_or(prev, k@, 0))
        } else {
            0
        }
    }
}

/// A counter of an address behind an interface that is watched is remembered as it was read; any
/// other is remembered as before.
pub proof fn law_ip_counters_are_kept(
    readings: Seq<(IpTrafficKey, TrafficValue)>,
    topology: Seq<InterfaceFacts>,
    monitored: Seq<Seq<char>>,
    elapsed_ms: u64,
    ledger: Ledger<IpCounter, (u32, Seq<char>)>,
    key: IpCounter,
)
    requires
        ip_reads_apart(readings),
    ensures
        ({
            let after = ip_pass(readings, topology, monitored, elapsed_ms, ledger).0;
            let kept = monitored.len() == 0 || monitored.contains(name_at(topology, key.0));
            &&& forall|r: int|
                0 <= r < readings.len() && (#[trigger] readings[r]).0@ == key && kept ==> get(
                    after.prev,
                    key,
                ) == Some(readings[r].1.bytes)
            &&& !kept || (forall|r: int|
                0 <= r < readings.len() ==> (#[trigger] readings[r]).0@ != key) ==> get(
                after.prev,
                key,
            ) == get(ledger.prev, key)
        }),
    decreases readings.len(),
{
    if readings.len() > 0 {
        let init = readings.drop_last();
        let n = readings.len() - 1;
        assert forall|i: int| 0 <= i < init.len() implies (#[trigger] init[i]) == readings[i] by {}
        assert(ip_reads_apart(init));
        law_ip_counters_are_kept(init, topology, monitored, elapsed_ms, ledger, key);
        let before = ip_pass(init, topology, monitored, elapsed_ms, ledger).0;
        let after = ip_pass(readings, topology, monitored, elapsed_ms, ledger).0;
        let (k, v) = readings.last();
        assert(readings[n] == (k, v));
        let kept = monitored.len() == 0 || monitored.contains(name_at(topology, key.0));
        if watched(monitored, name_at(topology, k.ifindex)) {
            lemma_one_reading(before.prev, k, v, elapsed_ms);
            assert(after.prev == put(before.prev, k@, v.bytes));
            law_put_get(before.prev, k@, v.bytes);
            if key != k@ {
                law_put_get_other(before.prev, k@, v.bytes, key);
            } else {
                assert forall|r: int|
                    0 <= r < readings.len() && (#[trigger] readings[r]).0@ == key implies r == n by {
                    assert(readings[n].0@ == key);
                }
            }
        }
        assert forall|r: int|
            0 <= r < readings.len() && (#[trigger] readings[r]).0@ == key && kept implies get(
            after.prev,
            key,
        ) == Some(readings[r].1.bytes) by {
            if r < n {
                assert(init[r] == readings[r]);
                assert(readings[r].0@ != readings[n].0@);
            }
        }
        if forall|r: int| 0 <= r < readings.len() ==> (#[trigger] readings[r]).0@ != key {
            assert(readings[n].0@ != key);
            assert forall|r: int| 0 <= r < init.len() implies (#[trigger] init[r]).0@ != key by {
                assert(readings[r].0@ != key);
            }
        }
    }
}

spec fn ip_reading(k: IpTrafficKey, v: TrafficValue) -> Reading<IpCounter> {
    (
        k@,
        (
            if k.ip_version == 4 {
                4u8
            } else {
                6u8
            },
            if k.direction == 1 {
                1u8
            } else {
                2u8
            },
            v.bytes,
        ),
    )
}

proof fn lemma_one_reading(
    prev: Seq<(IpCounter, u64)>,
    k: IpTrafficKey,
    v: TrafficValue,
    elapsed_ms: u64,
)
    ensures
        ({
            let (p, q) = counted(prev, seq![ip_reading(k, v)], elapsed_ms);
            let bytes = gone_up(v.bytes, get_or(prev, k@, 0));
            &&& p == put(prev, k@, v.bytes)
            &&& forall|iv: u8, d: u8|
                #![trigger bytes_in(q, iv, d)]
                is_lane(iv, d) ==> bytes_in(q, iv, d) == (if ip_lane(k, iv, d) {
                    bytes
                } else {
                    0
                }) && rate_in(q, iv, d) == (if ip_lane(k, iv, d) {
                    rate_of(bytes as u64, elapsed_ms) as int
                } else {
                    0
                })
        }),
{
    let one = ip_reading(k, v);
    let s = seq![one];
    reveal_with_fuel(counted, 2);
    reveal_with_fuel(lane_bytes, 2);
    reveal_with_fuel(lane_rates, 2);
    assert(s.drop_last() =~= Seq::<Reading<IpCounter>>::empty());
    assert(s.last() == one);
    law_readings_are_counted(prev, s, elapsed_ms);
    let q = counted(prev, s, elapsed_ms).1;
    assert forall|iv: u8, d: u8| #![trigger bytes_in(q, iv, d)] is_lane(iv, d) implies bytes_in(
        q,
        iv,
        d,
    ) == (if ip_lane(k, iv, d) {
        gone_up(v.bytes, get_or(prev, k@, 0))
    } else {
        0
    }) && rate_in(q, iv, d) == (if ip_lane(k, iv, d) {
        rate_of(gone_up(v.bytes, get_or(prev, k@, 0)) as u64, elapsed_ms) as int
    } else {
        0
    }) by {
        assert(bytes_in(q, iv, d) == capped(lane_bytes(s, prev, iv, d)));
    }
}

/// `item` shows a reading of an address: what the counter adds for its IP version and direction,
/// and nothing for any other.
pub open spec fn shows_ip_reading(
    item: IpShown,
    k: IpTrafficKey,
    v: TrafficValue,
    elapsed_ms: u64,
    prev: Seq<(IpCounter, u64)>,
) -> bool {
    let bytes = gone_up(v.bytes, get_or(prev, k@, 0));
    &&& item.ip_version == k.ip_version
    &&& forall|ip_version: u8, direction: u8|
        #![trigger bytes_in(item.metrics, ip_version, direction)]
        is_lane(ip_version, direction) ==> {
            &&& ip_lane(k, ip_version, direction) ==> bytes_in(item.metrics, ip_version, direction)
                == bytes && rate_in(item.metrics, ip_version, direction) == rate_of(
                bytes as u64,
                elapsed_ms,
            )
            &&& !ip_lane(k, ip_version, direction) ==> bytes_in(item.metrics, ip_version, direction)
                == 0 && rate_in(item.metrics, ip_version, direction) == 0
        }
}

/// No reading from a place on is of an address.
pub open spec fn no_ip_read_from(
    readings: Seq<(IpTrafficKey, TrafficValue)>,
    topology: Seq<InterfaceFacts>,
    monitored: Seq<Seq<char>>,
    ifindex: u32,
    ip: Seq<char>,
    from: int,
) -> bool {
    forall|r: int|
        from <= r < readings.len() ==> !ip_read(
            (#[trigger] readings[r]).0,
            topology,
            monitored,
            ifindex,
            ip,
        )
}

/// `item` shows the last reading of an address.
pub open spec fn shows_last_reading(
    item: IpShown,
    readings: Seq<(IpTrafficKey, TrafficValue)>,
    topology: Seq<InterfaceFacts>,
    monitored: Seq<Seq<char>>,
    elapsed_ms: u64,
    prev: Seq<(IpCounter, u64)>,
    ifindex: u32,
    ip: Seq<char>,
) -> bool {
    exists|r: int|
        #![trigger readings[r]]
        0 <= r < readings.len() && ip_read(readings[r].0, topology, monitored, ifindex, ip)
            && no_ip_read_from(readings, topology, monitored, ifindex, ip, r + 1)
            && shows_ip_reading(item, readings[r].0, readings[r].1, elapsed_ms, prev)
}

/// The addresses of a snapshot, where no counter is read twice: one is shown where a counter was
/// read for it behind an interface that is watched. It shows the last of its readings, under the
/// name of the interface, and in its total the bytes of all of them.
pub proof fn law_snapshot_ips(
    readings: Seq<(IpTrafficKey, TrafficValue)>,
    topology: Seq<InterfaceFacts>,
    monitored: Seq<Seq<char>>,
    elapsed_ms: u64,
    ledger: Ledger<IpCounter, (u32, Seq<char>)>,
    ifindex: u32,
    ip: Seq<char>,
)
    requires
        ip_reads_apart(readings),
    ensures
        ({
            let items = ip_pass(readings, topology, monitored, elapsed_ms, ledger).1;
            let total = get_or(ledger.totals, (ifindex, ip), zero_quad());
            &&& unique_keys(items)
            &&& match get(items, (ifindex, ip)) {
                Some(item) => {
                    &&& item.ifindex == ifindex
                    &&& item.ifname == name_at(topology, ifindex)
                    &&& item.ip_addr == ip
                    &&& shows_last_reading(
                        item,
                        readings,
                        topology,
                        monitored,
                        elapsed_ms,
                        ledger.prev,
                        ifindex,
                        ip,
                    )
                    &&& forall|v: u8, d: u8|
                        #![trigger bytes_in(item.cumulative, v, d)]
                        is_lane(v, d) ==> bytes_in(item.cumulative, v, d) == capped(
                            bytes_in(total, v, d) + ip_bytes(
                                readings,
                                topology,
                                monitored,
                                ledger.prev,
                                ifindex,
                                ip,
                                v,
                                d,
                            ),
                        )
                },
                None => no_ip_read_from(readings, topology, monitored, ifindex, ip, 0),
            }
        }),
    decreases readings.len(),
{
    let (after, items) = ip_pass(readings, topology, monitored, elapsed_ms, ledger);
    let key = (ifindex, ip);
    let total = get_or(ledger.totals, key, zero_quad());
    if readings.len() == 0 {
        lemma_absent(items, key);
    } else {
        let init = readings.drop_last();
        let n = readings.len() - 1;
        assert forall|i: int| 0 <= i < init.len() implies (#[trigger] init[i]) == readings[i] by {}
        assert(ip_reads_apart(init));
        law_snapshot_ips(init, topology, monitored, elapsed_ms, ledger, ifindex, ip);
        law_ip_totals_carry_on(init, topology, monitored, elapsed_ms, ledger, key);
        let (before, shown) = ip_pass(init, topology, monitored, elapsed_ms, ledger);
        let (k, v) = readings.last();
        assert(readings[n] == (k, v));
        let at = (k.ifindex, key_ip_text(k.ip_version, k.ip_addr@));
        if watched(monitored, name_at(topology, k.ifindex)) {
            law_ip_counters_are_kept(init, topology, monitored, elapsed_ms, ledger, k@);
            assert forall|r: int| 0 <= r < init.len() implies (#[trigger] init[r]).0@ != k@ by {
                assert(readings[r].0@ != readings[n].0@);
            }
            assert(get(before.prev, k@) == get(ledger.prev, k@));
            lemma_one_reading(before.prev, k, v, elapsed_ms);
            law_ip_totals_carry_on(readings, topology, monitored, elapsed_ms, ledger, at);
            let metrics = counted(
                before.prev,
                seq![ip_reading(k, v)],
                elapsed_ms,
            ).1;
            let i = IpShown {
                ifindex: k.ifindex,
                ifname: name_at(topology, k.ifindex),
                ip_addr: at.1,
                ip_version: k.ip_version,
                metrics,
                cumulative: quad_add(get_or(before.totals, at, zero_quad()), metrics),
            };
            assert(items == put(shown, at, i));
            law_put_keeps_unique(shown, at, i);
            law_put_get(shown, at, i);
            if at == key {
                let item = get(items, key)->0;
                assert(item == i);
                let t = get_or(before.totals, key, zero_quad());
                assert(item.cumulative == quad_add(t, item.metrics));
                assert(ip_read(k, topology, monitored, ifindex, ip));
                assert(shows_ip_reading(item, readings[n].0, readings[n].1, elapsed_ms, ledger.prev));
                assert(no_ip_read_from(readings, topology, monitored, ifindex, ip, n + 1));
                assert forall|iv: u8, d: u8|
                    #![trigger bytes_in(item.cumulative, iv, d)]
                    is_lane(iv, d) implies bytes_in(item.cumulative, iv, d) == capped(
                    bytes_in(total, iv, d) + ip_bytes(
                        readings,
                        topology,
                        monitored,
                        ledger.prev,
                        ifindex,
                        ip,
                        iv,
                        d,
                    ),
                ) by {
                    law_lanes_add(t, item.metrics, iv, d);
                    lemma_ip_bytes(
                        init,
                        topology,
                        monitored,
                        ledger.prev,
                        ifindex,
                        ip,
                        iv,
                        d,
                    );
                    assert(bytes_in(item.metrics, iv, d) >= 0);
                    if let Some(earlier) = get(shown, key) {
                        assert(t == earlier.cumulative);
                        assert(bytes_in(earlier.cumulative, iv, d) == capped(
                            bytes_in(total, iv, d) + ip_bytes(
                                init,
                                topology,
                                monitored,
                                ledger.prev,
                                ifindex,
                                ip,
                                iv,
                                d,
                            ),
                        ));
                    } else {
                        assert(t == total);
                    }
                }
            } else {
                law_put_get_other(shown, at, i, key);
            }
        }
        if !ip_read(k, topology, monitored, ifindex, ip) {
            assert(get(items, key) == get(shown, key));
            if let Some(item) = get(shown, key) {
                let r = choose|r: int|
                    #![trigger init[r]]
                    0 <= r < init.len() && ip_read(
                        init[r].0,
                        topology,
                        monitored,
                        ifindex,
                        ip,
                    ) && no_ip_read_from(init, topology, monitored, ifindex, ip, r + 1)
                        && shows_ip_reading(
                        item,
                        init[r].0,
                        init[r].1,
                        elapsed_ms,
                        ledger.prev,
                    );
                assert(readings[r] == init[r]);
                assert forall|q: int| r + 1 <= q < readings.len() implies !ip_read(
                    (#[trigger] readings[q]).0,
                    topology,
                    monitored,
                    ifindex,
                    ip,
                ) by {
                    if q < n {
                        assert(init[q] == readings[q]);
                    }
                }
                assert forall|iv: u8, d: u8|
                    #![trigger bytes_in(item.cumulative, iv, d)]
                    is_lane(iv, d) implies bytes_in(item.cumulative, iv, d) == capped(
                    bytes_in(total, iv, d) + ip_bytes(
                        readings,
                        topology,
                        monitored,
                        ledger.prev,
                        ifindex,
                        ip,
                        iv,
                        d,
                    ),
                ) by {
                    assert(ip_bytes(
                        readings,
                        topology,
                        monitored,
                        ledger.prev,
                        ifindex,
                        ip,
                        iv,
                        d,
                    ) == ip_bytes(
                        init,
                        topology,
                        monitored,
                        ledger.prev,
                        ifindex,
                        ip,
                        iv,
                        d,
                    ));
                }
            } else {
                assert forall|q: int| 0 <= q < readings.len() implies !ip_read(
                    (#[trigger] readings[q]).0,
                    topology,
                    monitored,
                    ifindex,
                    ip,
                ) by {
                    if q < n {
                        assert(init[q] == readings[q]);
                    }
                }
            }
        }
    }
}

proof fn lemma_ip_bytes(
    readings: Seq<(IpTrafficKey, TrafficValue)>,
    topology: Seq<InterfaceFacts>,
    monitored: Seq<Seq<char>>,
    prev: Seq<(IpCounter, u64)>,
    ifindex: u32,
    ip: Seq<char>,
    ip_version: u8,
    direction: u8,
)
    ensures
        ip_bytes(readings, topology, monitored, prev, ifindex, ip, ip_version, direction) >= 0,
        no_ip_read_from(readings, topology, monitored, ifindex, ip, 0) ==> ip_bytes(
            readings,
            topology,
            monitored,
            prev,
            ifindex,
            ip,
            ip_version,
            direction,
        ) == 0,
    decreases readings.len(),
{
    if readings.len() > 0 {
        let init = readings.drop_last();
        lemma_ip_bytes(
            init,
            topology,
            monitored,
            prev,
            ifindex,
            ip,
            ip_version,
            direction,
        );
        if no_ip_read_from(readings, topology, monitored, ifindex, ip, 0) {
            assert(!ip_read(
                readings[readings.len() - 1].0,
                topology,
                monitored,
                ifindex,
                ip,
            ));
            assert forall|r: int| 0 <= r < init.len() implies !ip_read(
                (#[trigger] init[r]).0,
                topology,
                monitored,
                ifindex,
                ip,
            ) by {
                assert(readings[r] == init[r]);
            }
        }
    }
}


/// A snapshot bears the time at which it was made, which the monitor keeps. It shows the
/// interfaces that are watched, in order, each with what was read for it since the last snapshot,
/// and each address that was read, once, with the last of its readings.
pub proof fn law_snapshot_shows_readings(m: RuntimeModel, input: SnapshotInput, now_ms: u64)
    requires
        unique_keys(by_index(input.topology@)),
        iface_reads_apart(input.readings.iface@),
        ip_reads_apart(input.readings.ip@),
    ensures
        ({
            let (after, shown) = snapshot_pass(m, input, now_ms);
            let elapsed_ms = elapsed_since(m.last_snapshot_ms, now_ms);
            let monitored = texts(input.monitor_ifaces@);
            let interfaces = watched_among(input.topology@, monitored);
            &&& shown.timestamp_ms == now_ms
            &&& after.last_snapshot_ms == Some(now_ms)
            &&& shown.interfaces.len() == interfaces.len()
            &&& forall|i: int|
                0 <= i < interfaces.len() ==> shows_interface(
                    #[trigger] shown.interfaces[i],
                    interfaces[i],
                    input.readings.iface@,
                    elapsed_ms,
                    m.iface,
                )
            &&& forall|i: int|
                0 <= i < shown.ips.len() ==> shows_last_reading(
                    #[trigger] shown.ips[i],
                    input.readings.ip@,
                    input.topology@,
                    monitored,
                    elapsed_ms,
                    m.ip.prev,
                    shown.ips[i].ifindex,
                    shown.ips[i].ip_addr,
                )
            &&& forall|i: int, j: int|
                0 <= i < shown.ips.len() && 0 <= j < shown.ips.len() && (
                #[trigger] shown.ips[i]).ifindex == (#[trigger] shown.ips[j]).ifindex
                    && shown.ips[i].ip_addr == shown.ips[j].ip_addr ==> i == j
        }),
{
    let (after, shown) = snapshot_pass(m, input, now_ms);
    let elapsed_ms = elapsed_since(m.last_snapshot_ms, now_ms);
    let monitored = texts(input.monitor_ifaces@);
    law_snapshot_interfaces(
        input.topology@,
        monitored,
        input.readings.iface@,
        elapsed_ms,
        m.iface,
    );
    let items = ip_pass(input.readings.ip@, input.topology@, monitored, elapsed_ms, m.ip).1;
    assert forall|i: int| 0 <= i < shown.ips.len() implies shows_last_reading(
        #[trigger] shown.ips[i],
        input.readings.ip@,
        input.topology@,
        monitored,
        elapsed_ms,
        m.ip.prev,
        shown.ips[i].ifindex,
        shown.ips[i].ip_addr,
    ) && items[i].0 == (shown.ips[i].ifindex, shown.ips[i].ip_addr) by {
        let (key, item) = items[i];
        assert(shown.ips[i] == item);
        law_snapshot_ips(
            input.readings.ip@,
            input.topology@,
            monitored,
            elapsed_ms,
            m.ip,
            key.0,
            key.1,
        );
        lemma_occurs(items, i);
        assert(is_first(items, key, position(items, key)));
    }
    law_snapshot_ips(
        input.readings.ip@,
        input.topology@,
        monitored,
        elapsed_ms,
        m.ip,
        0,
        Seq::empty(),
    );
    assert forall|i: int, j: int|
        0 <= i < shown.ips.len() && 0 <= j < shown.ips.len() && (#[trigger] shown.ips[i]).ifindex
            == (#[trigger] shown.ips[j]).ifindex && shown.ips[i].ip_addr
            == shown.ips[j].ip_addr implies i == j by {
        assert(items[i].0 == items[j].0);
    }
}

/// An address that was read behind an interface that is watched is shown.
pub proof fn law_read_address_is_shown(
    m: RuntimeModel,
    input: SnapshotInput,
    now_ms: u64,
    r: int,
)
    requires
        ip_reads_apart(input.readings.ip@),
        0 <= r < input.readings.ip@.len(),
        watched(
            texts(input.monitor_ifaces@),
            name_at(input.topology@, input.readings.ip@[r].0.ifindex),
        ),
    ensures
        exists|i: int|
            0 <= i < snapshot_pass(m, input, now_ms).1.ips.len() && (
            #[trigger] snapshot_pass(m, input, now_ms).1.ips[i]).ifindex
                == input.readings.ip@[r].0.ifindex && snapshot_pass(m, input, now_ms).1.ips[i].ip_addr
                == key_ip_text(
                input.readings.ip@[r].0.ip_version,
                input.readings.ip@[r].0.ip_addr@,
            ),
{
    let shown = snapshot_pass(m, input, now_ms).1;
    let elapsed_ms = elapsed_since(m.last_snapshot_ms, now_ms);
    let monitored = texts(input.monitor_ifaces@);
    let items = ip_pass(input.readings.ip@, input.topology@, monitored, elapsed_ms, m.ip).1;
    let k = input.readings.ip@[r].0;
    let key = (k.ifindex, key_ip_text(k.ip_version, k.ip_addr@));
    law_snapshot_ips(
        input.readings.ip@,
        input.topology@,
        monitored,
        elapsed_ms,
        m.ip,
        key.0,
        key.1,
    );
    assert(ip_read(input.readings.ip@[r].0, input.topology@, monitored, key.0, key.1));
    let i = position(items, key);
    assert(is_first(items, key, i));
    assert(shown.ips[i] == items[i].1);
}


} // verus!
