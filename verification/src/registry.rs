//! The service registry: a one-to-many "frontend -> backends" view over the
//! flat table, and the protocols that list it, add to it and delete from it.
//!
//! All records of one service share the service's address and port in their
//! key. The record with slave index 0 is the master: its value carries the
//! highest index handed out so far. Each record with an index of 1 or more is
//! one backend of the service.

use vstd::prelude::*;
use crate::service::{
    CodecError, Endpoint, KEY_SIZE, VALUE_SIZE, FIELD_MAX, DEFAULT_WEIGHT, frontend_key, master_value,
    slave_value, record_endpoint, record_last, lemma_decode_encode, lemma_encode_decode, lemma_record_bytes_injective, encode_frontend,
    encode_backend, decode_frontend, decode_backend, parse_endpoint,
};
use crate::table::{Contents, Entry, Shape, Table, TableError, insert_outcome, is_scan_of, has_key};
use crate::order::{Ranked, is_ascending, lemma_ascending_unique, insert_new};

verus! {

/// Why a registry operation failed.
#[derive(Debug, Clone, Copy, PartialEq, Eq, Structural)]
pub enum RegistryError {
    /// The service is not written as `address:port`.
    ServiceAddress,
    /// The backend is not written as `address:port`.
    BackendAddress,
    /// A record could not be encoded or decoded.
    Codec(CodecError),
    /// The table refused an operation.
    Table(TableError),
}

/// How an add ended when it did not fail.
#[derive(Debug, Clone, Copy, PartialEq, Eq, Structural)]
pub enum AddOutcome {
    /// The backend was already attached to the service; nothing was written.
    AlreadyPresent,
    /// The backend was attached under the given slave index.
    Added { index: u16 },
}

/// What an add has to do, decided from a scan of the table.
#[derive(Debug)]
pub enum AddPlan {
    /// The backend is already attached to the service: write nothing.
    AlreadyPresent,
    /// Write the master record, then the slave record, in this order.
    Insert { index: u16, master: Entry, slave: Entry },
}

/// The table holds a slave record of `service` under the index `slave`.
pub open spec fn has_slave(m: Contents, service: Endpoint, slave: u16) -> bool {
    slave >= 1 && m.dom().contains(frontend_key(service, slave))
}

/// The table holds the master record of `service`.
pub open spec fn has_master(m: Contents, service: Endpoint) -> bool {
    m.dom().contains(frontend_key(service, 0))
}

/// The count that the master record of `service` announces.
pub open spec fn master_count(m: Contents, service: Endpoint) -> u16 {
    record_last(m[frontend_key(service, 0)])
}

/// The backend that the slave record of `service` under `slave` points to.
pub open spec fn slave_target(m: Contents, service: Endpoint, slave: u16) -> Endpoint {
    record_endpoint(m[frontend_key(service, slave)])
}

/// Some slave record of `service` points to `backend`.
pub open spec fn has_backend(m: Contents, service: Endpoint, backend: Endpoint) -> bool {
    exists|s: u16| #[trigger] has_slave(m, service, s) && slave_target(m, service, s) == backend
}

/// The highest slave index of `service` in the table that is not above
/// `upto`; 0 if there is none.
pub open spec fn highest_slave(m: Contents, service: Endpoint, upto: nat) -> nat
    decreases upto,
{
    if upto == 0 {
        0
    } else if upto <= FIELD_MAX && has_slave(m, service, upto as u16) {
        upto
    } else {
        highest_slave(m, service, (upto - 1) as nat)
    }
}

/// The index that the next backend of `service` gets: one above the highest
/// index in the table, 1 if the service has no backend.
pub open spec fn next_index(m: Contents, service: Endpoint) -> nat {
    highest_slave(m, service, FIELD_MAX as nat) + 1
}

/// The table holds no entry.
pub open spec fn is_vacant(m: Contents) -> bool {
    forall|k: Seq<u8>| !m.dom().contains(k)
}

/// A table of this shape can hold service records.
pub open spec fn holds_records(shape: Shape) -> bool {
    shape.key_size == KEY_SIZE && shape.value_size == VALUE_SIZE
}

/// What adding `backend` to `service` does to a table with the contents `m`,
/// and what it answers.
///
/// A table that holds entries of another size than a record's cannot be read.
/// A backend that is already attached is not attached again. Otherwise the
/// master record is written with the new index as its count, and then the
/// slave record; when the second write fails the first is not taken back.
pub open spec fn add_spec(m: Contents, shape: Shape, service: Endpoint, backend: Endpoint) -> (
    Contents,
    Result<AddOutcome, RegistryError>,
) {
    let n = next_index(m, service);
    let master = frontend_key(service, 0);
    let slave = frontend_key(service, n as u16);
    let m1 = m.insert(master, master_value(n as u16));
    let m2 = m1.insert(slave, slave_value(backend));
    if !is_vacant(m) && !holds_records(shape) {
        (m, Err(RegistryError::Codec(CodecError::WrongLength)))
    } else if has_backend(m, service, backend) {
        (m, Ok(AddOutcome::AlreadyPresent))
    } else if n > FIELD_MAX {
        (m, Err(RegistryError::Codec(CodecError::WeightOutOfRange)))
    } else {
        match insert_outcome(m, shape, master, master_value(n as u16)) {
            Err(e) => (m, Err(RegistryError::Table(e))),
            Ok(_) => match insert_outcome(m1, shape, slave, slave_value(backend)) {
                Err(e) => (m1, Err(RegistryError::Table(e))),
                Ok(_) => (m2, Ok(AddOutcome::Added { index: n as u16 })),
            },
        }
    }
}

/// Every service with a slave record has its master record.
pub open spec fn masters_guard_slaves(m: Contents) -> bool {
    forall|service: Endpoint, s: u16| #[trigger]
        has_slave(m, service, s) ==> has_master(m, service)
}

/// No two slave records of `service` point to the same backend.
pub open spec fn backends_unique(m: Contents, service: Endpoint) -> bool {
    forall|s1: u16, s2: u16|
        #![trigger has_slave(m, service, s1), has_slave(m, service, s2)]
        has_slave(m, service, s1) && has_slave(m, service, s2) && slave_target(m, service, s1)
            == slave_target(m, service, s2) ==> s1 == s2
}

/// The slave records of `service` are exactly those with the indices 1 to `k`.
pub open spec fn slaves_are_first(m: Contents, service: Endpoint, k: nat) -> bool {
    forall|s: u16| #[trigger] has_slave(m, service, s) <==> 1 <= s <= k
}

/// Records of different services, or of different indices, have different keys.
pub proof fn lemma_keys_differ(a: Endpoint, s: u16, b: Endpoint, t: u16)
    ensures
        frontend_key(a, s) == frontend_key(b, t) ==> a == b && s == t,
{
    if frontend_key(a, s) == frontend_key(b, t) {
        lemma_record_bytes_injective(a.address, a.port, s, b.address, b.port, t);
    }
}

/// What the table looks like after an add that attached the backend: the new
/// slave record is there and points to the backend, the master announces its
/// index, and every other record is as it was.
pub proof fn lemma_added(m: Contents, shape: Shape, service: Endpoint, backend: Endpoint)
    requires
        add_spec(m, shape, service, backend).1 is Ok,
        add_spec(m, shape, service, backend).1 != Ok::<AddOutcome, RegistryError>(
            AddOutcome::AlreadyPresent,
        ),
    ensures
        ({
            let after = add_spec(m, shape, service, backend).0;
            let n = next_index(m, service);
            &&& 1 <= n <= FIELD_MAX
            &&& add_spec(m, shape, service, backend).1 == Ok::<AddOutcome, RegistryError>(
                AddOutcome::Added { index: n as u16 },
            )
            &&& !has_slave(m, service, n as u16)
            &&& !has_backend(m, service, backend)
            &&& holds_records(shape)
            &&& has_master(after, service)
            &&& master_count(after, service) == n
            &&& has_slave(after, service, n as u16)
            &&& slave_target(after, service, n as u16) == backend
            &&& forall|other: Endpoint, s: u16|
                #![trigger has_slave(after, other, s)]
                #![trigger has_slave(m, other, s)]
                has_slave(after, other, s) <==> has_slave(m, other, s) || (other == service && s
                    == n)
            &&& forall|other: Endpoint, s: u16|
                #![trigger slave_target(after, other, s)]
                has_slave(m, other, s) ==> slave_target(after, other, s) == slave_target(
                    m,
                    other,
                    s,
                )
            &&& forall|other: Endpoint| #[trigger]
                has_master(after, other) <==> has_master(m, other) || other == service
        }),
{
    let after = add_spec(m, shape, service, backend).0;
    let n = next_index(m, service);
    lemma_highest_slave(m, service, FIELD_MAX as nat);
    lemma_decode_encode(0, 0, n as u16);
    lemma_decode_encode(backend.address, backend.port, DEFAULT_WEIGHT);
    lemma_decode_encode(service.address, service.port, 0);
    lemma_decode_encode(service.address, service.port, n as u16);
    lemma_keys_differ(service, 0, service, n as u16);
    assert(!has_slave(m, service, n as u16));
    assert forall|other: Endpoint, s: u16|
        #![trigger has_slave(after, other, s)]
        #![trigger has_slave(m, other, s)]
        has_slave(after, other, s) <==> has_slave(m, other, s) || (other == service && s == n) by {
        lemma_keys_differ(other, s, service, 0);
        lemma_keys_differ(other, s, service, n as u16);
    }
    assert forall|other: Endpoint, s: u16| #![trigger slave_target(after, other, s)] has_slave(m, other, s) implies slave_target(
        after,
        other,
        s,
    ) == slave_target(m, other, s) by {
        lemma_keys_differ(other, s, service, 0);
        lemma_keys_differ(other, s, service, n as u16);
    }
    assert forall|other: Endpoint| #[trigger]
        has_master(after, other) <==> has_master(m, other) || other == service by {
        lemma_keys_differ(other, 0, service, 0);
        lemma_keys_differ(other, 0, service, n as u16);
    }
}

/// Adding is idempotent: after an add that did not fail, adding the same
/// backend to the same service again changes nothing in the table and answers
/// that the backend is already present.
pub proof fn lemma_add_idempotent(m: Contents, shape: Shape, service: Endpoint, backend: Endpoint)
    requires
        add_spec(m, shape, service, backend).1 is Ok,
    ensures
        add_spec(add_spec(m, shape, service, backend).0, shape, service, backend) == (
            add_spec(m, shape, service, backend).0,
            Ok::<AddOutcome, RegistryError>(AddOutcome::AlreadyPresent),
        ),
{
    if add_spec(m, shape, service, backend).1 != Ok::<AddOutcome, RegistryError>(
        AddOutcome::AlreadyPresent,
    ) {
        lemma_added(m, shape, service, backend);
    }
}

/// A backend that is already attached to the service is rejected: the table
/// stays as it is, so no second slave record for it comes to be.
pub proof fn lemma_add_rejects_duplicate(m: Contents, shape: Shape, service: Endpoint, backend: Endpoint)
    requires
        has_backend(m, service, backend),
    ensures
        add_spec(m, shape, service, backend).0 == m,
        add_spec(m, shape, service, backend).1 !is Ok || add_spec(m, shape, service, backend).1
            == Ok::<AddOutcome, RegistryError>(AddOutcome::AlreadyPresent),
{
}

/// Whatever an add does, it leaves no backend attached twice to the service
/// if none was attached twice before.
pub proof fn lemma_add_keeps_backends_unique(m: Contents, shape: Shape, service: Endpoint, backend: Endpoint)
    requires
        backends_unique(m, service),
    ensures
        backends_unique(add_spec(m, shape, service, backend).0, service),
{
    let after = add_spec(m, shape, service, backend).0;
    let n = next_index(m, service);
    let m1 = m.insert(frontend_key(service, 0), master_value(n as u16));
    if after != m {
        assert forall|s: u16| #[trigger] has_slave(m1, service, s) <==> has_slave(m, service, s) by {
            lemma_keys_differ(service, s, service, 0);
        }
        assert forall|s: u16| has_slave(m, service, s) implies #[trigger] slave_target(m1, service, s)
            == slave_target(m, service, s) by {
            lemma_keys_differ(service, s, service, 0);
        }
        if after == m1 {
            assert forall|s1: u16, s2: u16|
                #![trigger has_slave(m1, service, s1), has_slave(m1, service, s2)]
                has_slave(m1, service, s1) && has_slave(m1, service, s2) && slave_target(
                    m1,
                    service,
                    s1,
                ) == slave_target(m1, service, s2) implies s1 == s2 by {
                assert(has_slave(m, service, s1) && has_slave(m, service, s2));
            }
        } else {
            lemma_added(m, shape, service, backend);
            assert forall|s1: u16, s2: u16|
                #![trigger has_slave(after, service, s1), has_slave(after, service, s2)]
                has_slave(after, service, s1) && has_slave(after, service, s2) && slave_target(
                    after,
                    service,
                    s1,
                ) == slave_target(after, service, s2) implies s1 == s2 by {
                if s1 != n && s2 != n {
                    assert(has_slave(m, service, s1) && has_slave(m, service, s2));
                    assert(slave_target(after, service, s1) == slave_target(m, service, s1));
                    assert(slave_target(after, service, s2) == slave_target(m, service, s2));
                } else if s1 != n {
                    assert(has_slave(m, service, s1));
                    assert(slave_target(after, service, s1) == slave_target(m, service, s1));
                } else if s2 != n {
                    assert(has_slave(m, service, s2));
                    assert(slave_target(after, service, s2) == slave_target(m, service, s2));
                }
            }
        }
    }
}

/// After an add that did not fail the service has its master record,
/// provided that it had one if the backend was attached before.
pub proof fn lemma_add_leaves_master(m: Contents, shape: Shape, service: Endpoint, backend: Endpoint)
    requires
        add_spec(m, shape, service, backend).1 is Ok,
        has_backend(m, service, backend) ==> has_master(m, service),
    ensures
        has_master(add_spec(m, shape, service, backend).0, service),
{
    if add_spec(m, shape, service, backend).1 != Ok::<AddOutcome, RegistryError>(
        AddOutcome::AlreadyPresent,
    ) {
        lemma_added(m, shape, service, backend);
    }
}

/// Whatever an add does, failed or not, it leaves every slave record with
/// its master if every slave had its master before.
pub proof fn lemma_add_keeps_masters(m: Contents, shape: Shape, service: Endpoint, backend: Endpoint)
    requires
        masters_guard_slaves(m),
    ensures
        masters_guard_slaves(add_spec(m, shape, service, backend).0),
{
    let after = add_spec(m, shape, service, backend).0;
    let n = next_index(m, service);
    let m1 = m.insert(frontend_key(service, 0), master_value(n as u16));
    assert forall|other: Endpoint, s: u16| #[trigger] has_slave(after, other, s) implies has_master(
        after,
        other,
    ) by {
        lemma_keys_differ(other, s, service, 0);
        if after == m || after == m1 {
            assert(has_slave(m, other, s));
        } else {
            if !(other == service) {
                lemma_keys_differ(other, s, service, n as u16);
                assert(has_slave(m, other, s));
            }
        }
    }
}

/// One more backend for a service whose slaves have the indices 1 to `k`:
/// the add hands out `k + 1`, the slaves then have the indices 1 to `k + 1`,
/// and the master announces `k + 1`.
pub proof fn lemma_add_next(m: Contents, shape: Shape, service: Endpoint, backend: Endpoint, k: nat)
    requires
        slaves_are_first(m, service, k),
        add_spec(m, shape, service, backend).1 is Ok,
        add_spec(m, shape, service, backend).1 != Ok::<AddOutcome, RegistryError>(
            AddOutcome::AlreadyPresent,
        ),
    ensures
        k < FIELD_MAX,
        add_spec(m, shape, service, backend).1 == Ok::<AddOutcome, RegistryError>(
            AddOutcome::Added { index: (k + 1) as u16 },
        ),
        slaves_are_first(add_spec(m, shape, service, backend).0, service, k + 1),
        has_master(add_spec(m, shape, service, backend).0, service),
        master_count(add_spec(m, shape, service, backend).0, service) == k + 1,
        slave_target(add_spec(m, shape, service, backend).0, service, (k + 1) as u16) == backend,
{
    lemma_added(m, shape, service, backend);
    lemma_highest_slave(m, service, FIELD_MAX as nat);
    let h = highest_slave(m, service, FIELD_MAX as nat);
    if h > 0 {
        assert(has_slave(m, service, h as u16));
    }
    if k > 0 {
        if k <= FIELD_MAX {
            assert(has_slave(m, service, k as u16));
        } else {
            assert(has_slave(m, service, FIELD_MAX as u16));
        }
    }
    assert(h == k);
    let after = add_spec(m, shape, service, backend).0;
    assert forall|s: u16| #[trigger] has_slave(after, service, s) <==> 1 <= s <= k + 1 by {
        assert(has_slave(after, service, s) <==> has_slave(m, service, s) || s == k + 1);
    }
}

/// A run of adds to one service that had no backend, each of which attached
/// its backend: the indices handed out are 1, 2, 3 and so on in the order of
/// the adds, after the `i`-th add the slaves have the indices 1 to `i`, and
/// the master announces `i`.
///
/// `states` holds the table before the first add and after each add.
pub proof fn lemma_add_run(
    states: Seq<Contents>,
    shape: Shape,
    service: Endpoint,
    backends: Seq<Endpoint>,
    indices: Seq<u16>,
    i: int,
)
    requires
        states.len() == backends.len() + 1,
        indices.len() == backends.len(),
        slaves_are_first(states[0], service, 0),
        forall|j: int|
            0 <= j < backends.len() ==> add_spec(#[trigger] states[j], shape, service, backends[j])
                == (
                states[j + 1],
                Ok::<AddOutcome, RegistryError>(AddOutcome::Added { index: indices[j] }),
            ),
        0 <= i <= backends.len(),
    ensures
        slaves_are_first(states[i], service, i as nat),
        i >= 1 ==> indices[i - 1] == i && has_master(states[i], service) && master_count(
            states[i],
            service,
        ) == i && slave_target(states[i], service, i as u16) == backends[i - 1],
    decreases i,
{
    if i > 0 {
        lemma_add_run(states, shape, service, backends, indices, i - 1);
        assert(add_spec(states[i - 1], shape, service, backends[i - 1]) == (
            states[i - 1 + 1],
            Ok::<AddOutcome, RegistryError>(AddOutcome::Added { index: indices[i - 1] }),
        ));
        lemma_add_next(states[i - 1], shape, service, backends[i - 1], (i - 1) as nat);
    }
}

/// The entry does not have the sizes of a key and a value.
pub open spec fn malformed(e: Entry) -> bool {
    e.key@.len() != KEY_SIZE || e.value@.len() != VALUE_SIZE
}

/// The entry is a slave record of `service`.
pub open spec fn is_slave_of(e: Entry, service: Endpoint) -> bool {
    record_endpoint(e.key@) == service && record_last(e.key@) >= 1
}

/// A scan for adding `backend` to `service` ends at this entry: it cannot
/// be read, or it is a slave record of the service that points to the backend.
pub open spec fn stops_scan(e: Entry, service: Endpoint, backend: Endpoint) -> bool {
    malformed(e) || (is_slave_of(e, service) && record_endpoint(e.value@) == backend)
}

/// The entry at `i` is the first at which the scan ends.
pub open spec fn first_stop(es: Seq<Entry>, service: Endpoint, backend: Endpoint, i: int) -> bool {
    &&& 0 <= i < es.len()
    &&& stops_scan(es[i], service, backend)
    &&& forall|j: int| 0 <= j < i ==> !stops_scan(#[trigger] es[j], service, backend)
}

/// The scan ends at no entry.
pub open spec fn no_stop(es: Seq<Entry>, service: Endpoint, backend: Endpoint) -> bool {
    forall|j: int| 0 <= j < es.len() ==> !stops_scan(#[trigger] es[j], service, backend)
}

/// The highest slave index among the entries of `service`; 0 if it has none.
pub open spec fn scan_highest(es: Seq<Entry>, service: Endpoint) -> nat
    decreases es.len(),
{
    if es.len() == 0 {
        0
    } else {
        let rest = scan_highest(es.drop_last(), service);
        if is_slave_of(es.last(), service) && record_last(es.last().key@) > rest {
            record_last(es.last().key@) as nat
        } else {
            rest
        }
    }
}

/// `scan_highest` is an index that occurs, and none that occurs is higher.
pub proof fn lemma_scan_highest(es: Seq<Entry>, service: Endpoint)
    ensures
        scan_highest(es, service) <= FIELD_MAX,
        forall|i: int|
            0 <= i < es.len() && is_slave_of(#[trigger] es[i], service) ==> record_last(es[i].key@)
                <= scan_highest(es, service),
        scan_highest(es, service) == 0 || exists|i: int|
            0 <= i < es.len() && is_slave_of(#[trigger] es[i], service) && record_last(es[i].key@)
                == scan_highest(es, service),
    decreases es.len(),
{
    if es.len() > 0 {
        let front = es.drop_last();
        lemma_scan_highest(front, service);
        let h = scan_highest(es, service);
        assert forall|i: int| 0 <= i < es.len() && is_slave_of(#[trigger] es[i], service) implies record_last(
            es[i].key@,
        ) <= h by {
            if i < es.len() - 1 {
                assert(front[i] == es[i]);
            }
        }
        if h != 0 {
            if h == scan_highest(front, service) {
                let i = choose|i: int|
                    0 <= i < front.len() && is_slave_of(#[trigger] front[i], service) && record_last(
                        front[i].key@,
                    ) == h;
                assert(es[i] == front[i]);
            } else {
                assert(is_slave_of(es[es.len() - 1], service));
            }
        }
    }
}

/// `highest_slave` is an index that occurs, and none up to the bound that
/// occurs is higher.
pub proof fn lemma_highest_slave(m: Contents, service: Endpoint, upto: nat)
    ensures
        highest_slave(m, service, upto) <= upto,
        forall|s: u16| #[trigger]
            has_slave(m, service, s) && s <= upto ==> s <= highest_slave(m, service, upto),
        highest_slave(m, service, upto) == 0 || (highest_slave(m, service, upto) <= FIELD_MAX
            && has_slave(m, service, highest_slave(m, service, upto) as u16)),
    decreases upto,
{
    if upto > 0 {
        lemma_highest_slave(m, service, (upto - 1) as nat);
    }
}

/// What a scan of a table tells about the table's contents.
pub proof fn lemma_scan_matches(es: Seq<Entry>, m: Contents, shape: Shape, service: Endpoint, backend: Endpoint)
    requires
        is_scan_of(es, m),
        forall|k: Seq<u8>| #[trigger]
            m.dom().contains(k) ==> k.len() == shape.key_size && m[k].len() == shape.value_size,
    ensures
        es.len() == 0 <==> is_vacant(m),
        !holds_records(shape) ==> forall|i: int| 0 <= i < es.len() ==> malformed(#[trigger] es[i]),
        holds_records(shape) ==> forall|i: int| 0 <= i < es.len() ==> !malformed(#[trigger] es[i]),
        holds_records(shape) || es.len() == 0 ==> (has_backend(m, service, backend) <==> !no_stop(
            es,
            service,
            backend,
        )),
        holds_records(shape) || es.len() == 0 ==> scan_highest(es, service) == highest_slave(
            m,
            service,
            FIELD_MAX as nat,
        ),
{
    if es.len() == 0 {
        assert forall|k: Seq<u8>| !m.dom().contains(k) by {
            if m.dom().contains(k) {
                assert(has_key(es, k));
            }
        }
    } else {
        assert(m.dom().contains(es[0].key@));
    }
    assert forall|i: int| 0 <= i < es.len() implies (#[trigger] es[i]).key@.len() == shape.key_size
        && es[i].value@.len() == shape.value_size by {
        assert(m.dom().contains(es[i].key@));
    }
    lemma_scan_highest(es, service);
    lemma_highest_slave(m, service, FIELD_MAX as nat);
    let hs = scan_highest(es, service);
    let hm = highest_slave(m, service, FIELD_MAX as nat);
    if holds_records(shape) || es.len() == 0 {
        if has_backend(m, service, backend) {
            let s = choose|s: u16| #[trigger]
                has_slave(m, service, s) && slave_target(m, service, s) == backend;
            let k = frontend_key(service, s);
            assert(has_key(es, k));
            let i = choose|i: int| 0 <= i < es.len() && (#[trigger] es[i]).key@ == k;
            lemma_decode_encode(service.address, service.port, s);
            assert(m.dom().contains(es[i].key@));
            assert(stops_scan(es[i], service, backend));
        }
        if !no_stop(es, service, backend) {
            let i = choose|i: int| 0 <= i < es.len() && stops_scan(#[trigger] es[i], service, backend);
            assert(m.dom().contains(es[i].key@));
            lemma_encode_decode(es[i].key@);
            let s = record_last(es[i].key@);
            assert(es[i].key@ == frontend_key(service, s));
            assert(has_slave(m, service, s) && slave_target(m, service, s) == backend);
        }
        if hs > 0 {
            let i = choose|i: int|
                0 <= i < es.len() && is_slave_of(#[trigger] es[i], service) && record_last(es[i].key@)
                    == hs;
            assert(m.dom().contains(es[i].key@));
            lemma_encode_decode(es[i].key@);
            assert(es[i].key@ == frontend_key(service, hs as u16));
            assert(has_slave(m, service, hs as u16));
        }
        if hm > 0 {
            let k = frontend_key(service, hm as u16);
            assert(has_key(es, k));
            let i = choose|i: int| 0 <= i < es.len() && (#[trigger] es[i]).key@ == k;
            lemma_decode_encode(service.address, service.port, hm as u16);
            assert(is_slave_of(es[i], service));
        }
    }
}

/// Decides from a scan of the table what adding `backend` to `service` has to
/// write.
///
/// The entries are read in order. The first that cannot be read fails the
/// plan; the first slave record of the service that points to the backend
/// ends it with nothing to write. When neither occurs, the plan holds the
/// master record announcing the next index and the slave record under that
/// index; it fails when the next index no longer fits the count field.
pub fn plan_add(scan: &Vec<Entry>, service: Endpoint, backend: Endpoint) -> (r: Result<
    AddPlan,
    CodecError,
>)
    ensures
        match r {
            Err(e) => {
                ||| (e == CodecError::WrongLength && exists|i: int|
                    first_stop(scan@, service, backend, i) && malformed(scan@[i]))
                ||| (e == CodecError::WeightOutOfRange && no_stop(scan@, service, backend)
                    && scan_highest(scan@, service) == FIELD_MAX)
            },
            Ok(AddPlan::AlreadyPresent) => exists|i: int|
                first_stop(scan@, service, backend, i) && !malformed(scan@[i]),
            Ok(AddPlan::Insert { index, master, slave }) => {
                &&& no_stop(scan@, service, backend)
                &&& index == scan_highest(scan@, service) + 1
                &&& master.key@ == frontend_key(service, 0)
                &&& master.value@ == master_value(index)
                &&& slave.key@ == frontend_key(service, index)
                &&& slave.value@ == slave_value(backend)
            },
        },
{
    let mut highest: u16 = 0;
    let mut i: usize = 0;
    while i < scan.len()
        invariant
            i <= scan@.len(),
            forall|j: int| 0 <= j < i ==> !stops_scan(#[trigger] scan@[j], service, backend),
            highest == scan_highest(scan@.take(i as int), service),
        decreases scan@.len() - i,
    {
        let key = match decode_frontend(scan[i].key.as_slice()) {
            Ok(fields) => fields,
            Err(e) => {
                assert(first_stop(scan@, service, backend, i as int));
                return Err(e);
            },
        };
        let value = match decode_backend(scan[i].value.as_slice()) {
            Ok(fields) => fields,
            Err(e) => {
                assert(first_stop(scan@, service, backend, i as int));
                return Err(e);
            },
        };
        if key.0 == service.address && key.1 == service.port as u32 && key.2 >= 1 {
            if value.0 == backend.address && value.1 == backend.port as u32 {
                assert(first_stop(scan@, service, backend, i as int));
                return Ok(AddPlan::AlreadyPresent);
            }
            if key.2 > highest as u32 {
                highest = key.2 as u16;
            }
        }
        proof {
            assert(scan@.take(i + 1).drop_last() =~= scan@.take(i as int));
        }
        i = i + 1;
    }
    proof {
        assert(scan@.take(i as int) =~= scan@);
        lemma_scan_highest(scan@, service);
    }
    let next: u32 = highest as u32 + 1;
    let master_key = match encode_frontend(service.address, service.port as u32, 0) {
        Ok(bytes) => bytes,
        Err(e) => {
            return Err(e);
        },
    };
    let master_bytes = match encode_backend(0, 0, next) {
        Ok(bytes) => bytes,
        Err(e) => {
            return Err(e);
        },
    };
    let slave_key = match encode_frontend(service.address, service.port as u32, next) {
        Ok(bytes) => bytes,
        Err(e) => {
            return Err(e);
        },
    };
    let slave_bytes = match encode_backend(
        backend.address,
        backend.port as u32,
        DEFAULT_WEIGHT as u32,
    ) {
        Ok(bytes) => bytes,
        Err(e) => {
            return Err(e);
        },
    };
    Ok(
        AddPlan::Insert {
            index: next as u16,
            master: Entry { key: master_key, value: master_bytes },
            slave: Entry { key: slave_key, value: slave_bytes },
        },
    )
}

/// Attaches `backend` to `service` in `table`, unless it is attached already.
///
/// The master record is written before the slave record, so that no reader of
/// the table sees a slave without its master.
pub fn add_backend(table: &mut Table, service: Endpoint, backend: Endpoint) -> (r: Result<
    AddOutcome,
    RegistryError,
>)
    requires
        old(table).wf(),
    ensures
        final(table).wf(),
        final(table).shape() == old(table).shape(),
        (final(table)@, r) == add_spec(old(table)@, old(table).shape(), service, backend),
{
    let scan = table.entries();
    proof {
        table.lemma_wf();
        lemma_scan_matches(scan@, table@, table.shape(), service, backend);
    }
    match plan_add(&scan, service, backend) {
        Err(e) => Err(RegistryError::Codec(e)),
        Ok(AddPlan::AlreadyPresent) => Ok(AddOutcome::AlreadyPresent),
        Ok(AddPlan::Insert { index, master, slave }) => {
            match table.insert(master.key.as_slice(), master.value.as_slice()) {
                Err(e) => {
                    return Err(RegistryError::Table(e));
                },
                Ok(_) => {},
            }
            match table.insert(slave.key.as_slice(), slave.value.as_slice()) {
                Err(e) => {
                    return Err(RegistryError::Table(e));
                },
                Ok(_) => {},
            }
            Ok(AddOutcome::Added { index })
        },
    }
}

/// The slave indices of `service` in the table that are not above `upto`, in
/// ascending order.
pub open spec fn slave_indices(m: Contents, service: Endpoint, upto: nat) -> Seq<u16>
    decreases upto,
{
    if upto == 0 {
        Seq::empty()
    } else if upto <= FIELD_MAX && has_slave(m, service, upto as u16) {
        slave_indices(m, service, (upto - 1) as nat).push(upto as u16)
    } else {
        slave_indices(m, service, (upto - 1) as nat)
    }
}

/// The keys of all slave records of `service` in the table.
pub open spec fn slave_keys(m: Contents, service: Endpoint) -> Set<Seq<u8>> {
    Set::new(
        |k: Seq<u8>| exists|s: u16| #[trigger] has_slave(m, service, s) && k == frontend_key(service, s),
    )
}

/// What deleting `service` does to a table with the contents `m`, and what
/// it answers: every slave record of the service is removed, and the answer
/// lists their indices in ascending order. The master record stays.
///
/// A table whose keys are of another size than a record's cannot be read.
pub open spec fn del_spec(m: Contents, shape: Shape, service: Endpoint) -> (
    Contents,
    Result<Seq<u16>, RegistryError>,
) {
    if !is_vacant(m) && shape.key_size != KEY_SIZE {
        (m, Err(RegistryError::Codec(CodecError::WrongLength)))
    } else {
        (m.remove_keys(slave_keys(m, service)), Ok(slave_indices(m, service, FIELD_MAX as nat)))
    }
}

/// `slave_indices` is ascending and holds exactly the indices that occur.
pub proof fn lemma_slave_indices(m: Contents, service: Endpoint, upto: nat)
    ensures
        is_ascending(slave_indices(m, service, upto)),
        forall|s: u16|
            #![trigger slave_indices(m, service, upto).contains(s)]
            #![trigger has_slave(m, service, s)]
            slave_indices(m, service, upto).contains(s) <==> has_slave(m, service, s) && s <= upto,
    decreases upto,
{
    let all = slave_indices(m, service, upto);
    if upto == 0 {
        assert forall|s: u16|
            #![trigger all.contains(s)]
            #![trigger has_slave(m, service, s)]
            all.contains(s) <==> has_slave(m, service, s) && s <= upto by {
            if all.contains(s) {
                let i = choose|i: int| 0 <= i < all.len() && all[i] == s;
            }
        }
    } else {
        lemma_slave_indices(m, service, (upto - 1) as nat);
        let rest = slave_indices(m, service, (upto - 1) as nat);
        if upto <= FIELD_MAX && has_slave(m, service, upto as u16) {
            assert forall|i: int, j: int| 0 <= i < j < all.len() implies all[i].rank() < all[j].rank() by {
                assert(all[i] == rest[i]);
                assert(rest.contains(rest[i]));
                assert(rest[i] <= upto - 1);
                if j < all.len() - 1 {
                    assert(all[j] == rest[j]);
                    assert(rest[i].rank() < rest[j].rank());
                }
            }
            assert forall|s: u16|
                #![trigger all.contains(s)]
                #![trigger has_slave(m, service, s)]
                all.contains(s) <==> has_slave(m, service, s) && s <= upto by {
                if all.contains(s) {
                    let i = choose|i: int| 0 <= i < all.len() && all[i] == s;
                    if i < all.len() - 1 {
                        assert(rest[i] == s);
                    }
                }
                if has_slave(m, service, s) && s <= upto {
                    if s == upto {
                        assert(all[all.len() - 1] == s);
                    } else {
                        let i = choose|i: int| 0 <= i < rest.len() && rest[i] == s;
                        assert(all[i] == s);
                    }
                }
            }
        }
    }
}

/// Deleting leaves no slave record of the service in the table; its master
/// record, if it had one, is still there, and so is every record of every
/// other service.
pub proof fn lemma_del_removes_slaves(m: Contents, shape: Shape, service: Endpoint)
    requires
        del_spec(m, shape, service).1 is Ok,
    ensures
        forall|s: u16| !has_slave(del_spec(m, shape, service).0, service, s),
        has_master(del_spec(m, shape, service).0, service) <==> has_master(m, service),
        has_master(m, service) ==> master_count(del_spec(m, shape, service).0, service)
            == master_count(m, service),
        forall|other: Endpoint, s: u16|
            other != service ==> (#[trigger] del_spec(m, shape, service).0.dom().contains(
                frontend_key(other, s),
            ) <==> m.dom().contains(frontend_key(other, s))),
{
    let after = del_spec(m, shape, service).0;
    assert forall|s: u16| !has_slave(after, service, s) by {
        if has_slave(after, service, s) {
            assert(has_slave(m, service, s));
            assert(slave_keys(m, service).contains(frontend_key(service, s)));
        }
    }
    assert(!slave_keys(m, service).contains(frontend_key(service, 0))) by {
        if slave_keys(m, service).contains(frontend_key(service, 0)) {
            let s = choose|s: u16| #[trigger]
                has_slave(m, service, s) && frontend_key(service, 0) == frontend_key(service, s);
            lemma_keys_differ(service, 0, service, s);
        }
    }
    assert forall|other: Endpoint, s: u16| other != service implies (#[trigger] after.dom().contains(
        frontend_key(other, s),
    ) <==> m.dom().contains(frontend_key(other, s))) by {
        if slave_keys(m, service).contains(frontend_key(other, s)) {
            let t = choose|t: u16| #[trigger]
                has_slave(m, service, t) && frontend_key(other, s) == frontend_key(service, t);
            lemma_keys_differ(other, s, service, t);
        }
    }
}

/// Some entry of the scan is the slave record of `service` under `slave`.
pub open spec fn scan_has_slave(es: Seq<Entry>, service: Endpoint, slave: u16) -> bool {
    exists|i: int|
        0 <= i < es.len() && is_slave_of(#[trigger] es[i], service) && record_last(es[i].key@)
            == slave
}

/// Decides from a scan of the table which slave records a delete of
/// `service` has to remove: their indices, each once, in ascending order.
/// Fails exactly when a key of the scan does not have a key's size.
pub fn plan_del(scan: &Vec<Entry>, service: Endpoint) -> (r: Result<Vec<u16>, CodecError>)
    ensures
        match r {
            Err(e) => e == CodecError::WrongLength && exists|i: int|
                0 <= i < scan@.len() && (#[trigger] scan@[i]).key@.len() != KEY_SIZE,
            Ok(v) => {
                &&& forall|i: int| 0 <= i < scan@.len() ==> (#[trigger] scan@[i]).key@.len() == KEY_SIZE
                &&& is_ascending(v@)
                &&& forall|s: u16| v@.contains(s) <==> scan_has_slave(scan@, service, s)
            },
        },
{
    let mut found: Vec<u16> = Vec::new();
    let mut i: usize = 0;
    while i < scan.len()
        invariant
            i <= scan@.len(),
            forall|j: int| 0 <= j < i ==> (#[trigger] scan@[j]).key@.len() == KEY_SIZE,
            is_ascending(found@),
            forall|s: u16| found@.contains(s) <==> scan_has_slave(scan@.take(i as int), service, s),
        decreases scan@.len() - i,
    {
        let key = match decode_frontend(scan[i].key.as_slice()) {
            Ok(fields) => fields,
            Err(e) => {
                return Err(e);
            },
        };
        let ghost before = found@;
        let ghost seen = scan@.take(i as int);
        let ghost next = scan@.take(i + 1);
        let hit = key.0 == service.address && key.1 == service.port as u32 && key.2 >= 1;
        if hit {
            insert_new(&mut found, key.2 as u16);
        }
        proof {
            assert(next.drop_last() =~= seen);
            assert forall|s: u16| found@.contains(s) <==> scan_has_slave(next, service, s) by {
                if scan_has_slave(next, service, s) {
                    let j = choose|j: int|
                        0 <= j < next.len() && is_slave_of(#[trigger] next[j], service) && record_last(
                            next[j].key@,
                        ) == s;
                    if j < i {
                        assert(seen[j] == next[j]);
                        assert(scan_has_slave(seen, service, s));
                    }
                }
                if scan_has_slave(seen, service, s) {
                    let j = choose|j: int|
                        0 <= j < seen.len() && is_slave_of(#[trigger] seen[j], service) && record_last(
                            seen[j].key@,
                        ) == s;
                    assert(next[j] == seen[j]);
                }
                if hit && s == key.2 {
                    assert(is_slave_of(next[i as int], service));
                }
            }
        }
        i = i + 1;
    }
    proof {
        assert(scan@.take(i as int) =~= scan@);
    }
    Ok(found)
}

/// The keys of the slave records of `service` under the given indices.
spec fn keys_of(service: Endpoint, indices: Seq<u16>) -> Set<Seq<u8>> {
    Set::new(
        |k: Seq<u8>| exists|j: int| 0 <= j < indices.len() && k == frontend_key(service, #[trigger] indices[j]),
    )
}

/// Deletes every slave record of `service` from `table`, in ascending order
/// of index, and answers with the indices. The master record is left alone.
pub fn del_service(table: &mut Table, service: Endpoint) -> (r: Result<Vec<u16>, RegistryError>)
    requires
        old(table).wf(),
    ensures
        final(table).wf(),
        final(table).shape() == old(table).shape(),
        final(table)@ == del_spec(old(table)@, old(table).shape(), service).0,
        match r {
            Ok(v) => del_spec(old(table)@, old(table).shape(), service).1 == Ok::<
                Seq<u16>,
                RegistryError,
            >(v@),
            Err(e) => del_spec(old(table)@, old(table).shape(), service).1 == Err::<
                Seq<u16>,
                RegistryError,
            >(e),
        },
{
    let scan = table.entries();
    let ghost m = table@;
    proof {
        table.lemma_wf();
        lemma_scan_matches(scan@, m, table.shape(), service, service);
    }
    let found = match plan_del(&scan, service) {
        Ok(found) => found,
        Err(e) => {
            proof {
                let i = choose|i: int| 0 <= i < scan@.len() && (#[trigger] scan@[i]).key@.len() != KEY_SIZE;
                assert(m.dom().contains(scan@[i].key@));
            }
            return Err(RegistryError::Codec(e));
        },
    };
    proof {
        if scan@.len() > 0 {
            assert(m.dom().contains(scan@[0].key@));
        }
        lemma_slave_indices(m, service, FIELD_MAX as nat);
        assert forall|s: u16| found@.contains(s) <==> has_slave(m, service, s) by {
            if scan_has_slave(scan@, service, s) {
                let i = choose|i: int|
                    0 <= i < scan@.len() && is_slave_of(#[trigger] scan@[i], service) && record_last(
                        scan@[i].key@,
                    ) == s;
                assert(m.dom().contains(scan@[i].key@));
                lemma_encode_decode(scan@[i].key@);
            }
            if has_slave(m, service, s) {
                let k = frontend_key(service, s);
                assert(has_key(scan@, k));
                let i = choose|i: int| 0 <= i < scan@.len() && (#[trigger] scan@[i]).key@ == k;
                lemma_decode_encode(service.address, service.port, s);
                assert(is_slave_of(scan@[i], service));
            }
        }
        lemma_ascending_unique(found@, slave_indices(m, service, FIELD_MAX as nat));
        assert(m.remove_keys(keys_of(service, found@.take(0))) =~= m);
    }
    let mut i: usize = 0;
    while i < found.len()
        invariant
            i <= found@.len(),
            table.wf(),
            table.shape() == old(table).shape(),
            m == old(table)@,
            is_ascending(found@),
            forall|s: u16| found@.contains(s) <==> has_slave(m, service, s),
            table@ == m.remove_keys(keys_of(service, found@.take(i as int))),
        decreases found@.len() - i,
    {
        let key = match encode_frontend(service.address, service.port as u32, found[i] as u32) {
            Ok(bytes) => bytes,
            Err(e) => {
                return Err(RegistryError::Codec(e));
            },
        };
        let ghost done = keys_of(service, found@.take(i as int));
        proof {
            assert(found@.contains(found@[i as int]));
            assert(has_slave(m, service, found@[i as int]));
            if done.contains(key@) {
                let j = choose|j: int|
                    0 <= j < found@.take(i as int).len() && key@ == frontend_key(
                        service,
                        #[trigger] found@.take(i as int)[j],
                    );
                lemma_keys_differ(service, found@[i as int], service, found@[j]);
                assert(found@[j].rank() < found@[i as int].rank());
            }
        }
        match table.delete(key.as_slice()) {
            Ok(_) => {},
            Err(e) => {
                return Err(RegistryError::Table(e));
            },
        }
        proof {
            let more = keys_of(service, found@.take(i + 1));
            assert forall|k: Seq<u8>| more.contains(k) <==> done.contains(k) || k == key@ by {
                if more.contains(k) {
                    let j = choose|j: int|
                        0 <= j < found@.take(i + 1).len() && k == frontend_key(
                            service,
                            #[trigger] found@.take(i + 1)[j],
                        );
                    if j < i {
                        assert(found@.take(i as int)[j] == found@.take(i + 1)[j]);
                    }
                }
                if done.contains(k) {
                    let j = choose|j: int|
                        0 <= j < found@.take(i as int).len() && k == frontend_key(
                            service,
                            #[trigger] found@.take(i as int)[j],
                        );
                    assert(found@.take(i + 1)[j] == found@.take(i as int)[j]);
                }
                assert(found@.take(i + 1)[i as int] == found@[i as int]);
            }
            assert(table@ =~= m.remove_keys(more));
        }
        i = i + 1;
    }
    proof {
        assert(found@.take(i as int) =~= found@);
        let all = keys_of(service, found@);
        assert forall|k: Seq<u8>| all.contains(k) <==> slave_keys(m, service).contains(k) by {
            if all.contains(k) {
                let j = choose|j: int| 0 <= j < found@.len() && k == frontend_key(service, #[trigger] found@[j]);
                assert(found@.contains(found@[j]));
                assert(has_slave(m, service, found@[j]));
            }
            if slave_keys(m, service).contains(k) {
                let s = choose|s: u16| #[trigger] has_slave(m, service, s) && k == frontend_key(service, s);
                assert(found@.contains(s));
                let j = choose|j: int| 0 <= j < found@.len() && found@[j] == s;
                assert(k == frontend_key(service, found@[j]));
            }
        }
        assert(all =~= slave_keys(m, service));
    }
    Ok(found)
}

/// One backend of a listed service: its slave index and where it serves.
#[derive(Debug, Clone, Copy, PartialEq, Eq, Structural)]
pub struct BackendListing {
    pub index: u16,
    pub target: Endpoint,
}

impl Ranked for BackendListing {
    /// Backends are ordered by index, then by target.
    open spec fn rank(&self) -> nat {
        (self.index * 0x1_0000_0000_0000 + self.target.rank()) as nat
    }

    fn rank_value(&self) -> (r: u64) {
        self.index as u64 * 0x1_0000_0000_0000 + self.target.rank_value()
    }

    proof fn lemma_rank_injective(&self, other: &Self) {
        self.target.lemma_rank_injective(&other.target);
    }
}

/// One listed service: its frontend and its backends.
#[derive(Debug)]
pub struct ServiceListing {
    pub frontend: Endpoint,
    pub backends: Vec<BackendListing>,
}

/// Some entry of the scan is a record, master or slave, of `service`.
pub open spec fn scan_has_service(es: Seq<Entry>, service: Endpoint) -> bool {
    exists|i: int| 0 <= i < es.len() && record_endpoint((#[trigger] es[i]).key@) == service
}

/// Some entry of the scan is the slave record of `service` that `b` lists.
pub open spec fn scan_has_backend(es: Seq<Entry>, service: Endpoint, b: BackendListing) -> bool {
    exists|i: int|
        0 <= i < es.len() && is_slave_of(#[trigger] es[i], service) && record_last(es[i].key@)
            == b.index && record_endpoint(es[i].value@) == b.target
}

/// The frontends of `v` rise in rank, and each service's backends do.
pub open spec fn listing_ascends(v: Seq<ServiceListing>) -> bool {
    &&& forall|i: int, j: int| 0 <= i < j < v.len() ==> v[i].frontend.rank() < v[j].frontend.rank()
    &&& forall|i: int| 0 <= i < v.len() ==> is_ascending((#[trigger] v[i]).backends@)
}

/// `v` lists some service under the frontend `f`.
pub open spec fn lists_service(v: Seq<ServiceListing>, f: Endpoint) -> bool {
    exists|i: int| 0 <= i < v.len() && (#[trigger] v[i]).frontend == f
}

/// `v` is the listing of the scan `es`: each service that has a record in
/// the scan once, in ascending order of address and port, with each of its
/// slave records once, in ascending order of index.
pub open spec fn is_listing_of_scan(v: Seq<ServiceListing>, es: Seq<Entry>) -> bool {
    &&& listing_ascends(v)
    &&& forall|f: Endpoint| lists_service(v, f) <==> scan_has_service(es, f)
    &&& forall|i: int, b: BackendListing|
        0 <= i < v.len() ==> (#[trigger] v[i].backends@.contains(b) <==> scan_has_backend(
            es,
            v[i].frontend,
            b,
        ))
}

/// `v` is the listing of a table with the contents `m`: each service that
/// has a master or a slave record once, in ascending order of address and
/// port, with each of its slave records once, in ascending order of index.
pub open spec fn is_listing_of(v: Seq<ServiceListing>, m: Contents) -> bool {
    &&& listing_ascends(v)
    &&& forall|f: Endpoint|
        lists_service(v, f) <==> exists|s: u16| #[trigger] m.dom().contains(frontend_key(f, s))
    &&& forall|i: int, b: BackendListing|
        0 <= i < v.len() ==> (#[trigger] v[i].backends@.contains(b) <==> has_slave(
            m,
            v[i].frontend,
            b.index,
        ) && slave_target(m, v[i].frontend, b.index) == b.target)
}

fn collect_backends(scan: &Vec<Entry>, service: Endpoint) -> (found: Vec<BackendListing>)
    requires
        forall|i: int| 0 <= i < scan@.len() ==> !malformed(#[trigger] scan@[i]),
    ensures
        is_ascending(found@),
        forall|b: BackendListing| found@.contains(b) <==> scan_has_backend(scan@, service, b),
{
    let mut found: Vec<BackendListing> = Vec::new();
    let mut i: usize = 0;
    while i < scan.len()
        invariant
            i <= scan@.len(),
            forall|i: int| 0 <= i < scan@.len() ==> !malformed(#[trigger] scan@[i]),
            is_ascending(found@),
            forall|b: BackendListing|
                found@.contains(b) <==> scan_has_backend(scan@.take(i as int), service, b),
        decreases scan@.len() - i,
    {
        assert(!malformed(scan@[i as int]));
        let ghost seen = scan@.take(i as int);
        let ghost next = scan@.take(i + 1);
        let ghost mut hit = false;
        let ghost mut listed = BackendListing { index: 0, target: service };
        match (decode_frontend(scan[i].key.as_slice()), decode_backend(scan[i].value.as_slice())) {
            (Ok(key), Ok(value)) => {
                if key.0 == service.address && key.1 == service.port as u32 && key.2 >= 1 {
                    let b = BackendListing {
                        index: key.2 as u16,
                        target: Endpoint { address: value.0, port: value.1 as u16 },
                    };
                    proof {
                        hit = true;
                        listed = b;
                    }
                    insert_new(&mut found, b);
                }
            },
            _ => {},
        }
        proof {
            assert(next.drop_last() =~= seen);
            assert forall|b: BackendListing| found@.contains(b) <==> scan_has_backend(next, service, b) by {
                if scan_has_backend(next, service, b) {
                    let j = choose|j: int|
                        0 <= j < next.len() && is_slave_of(#[trigger] next[j], service) && record_last(
                            next[j].key@,
                        ) == b.index && record_endpoint(next[j].value@) == b.target;
                    if j < i {
                        assert(seen[j] == next[j]);
                        assert(scan_has_backend(seen, service, b));
                    }
                }
                if scan_has_backend(seen, service, b) {
                    let j = choose|j: int|
                        0 <= j < seen.len() && is_slave_of(#[trigger] seen[j], service) && record_last(
                            seen[j].key@,
                        ) == b.index && record_endpoint(seen[j].value@) == b.target;
                    assert(next[j] == seen[j]);
                }
                if hit && b == listed {
                    assert(is_slave_of(next[i as int], service));
                }
            }
        }
        i = i + 1;
    }
    proof {
        assert(scan@.take(i as int) =~= scan@);
    }
    found
}

/// Groups the entries of a scan by service.
///
/// Every service that has a record in the scan, master or slave, is listed
/// once, the services in ascending order of address and port; under each
/// stand its slave records, each once, in ascending order of index. Fails
/// exactly when an entry of the scan does not have the sizes of a record.
pub fn list_services(scan: &Vec<Entry>) -> (r: Result<Vec<ServiceListing>, CodecError>)
    ensures
        match r {
            Err(e) => e == CodecError::WrongLength && exists|i: int|
                0 <= i < scan@.len() && malformed(#[trigger] scan@[i]),
            Ok(v) => {
                &&& forall|i: int| 0 <= i < scan@.len() ==> !malformed(#[trigger] scan@[i])
                &&& is_listing_of_scan(v@, scan@)
            },
        },
{
    let mut frontends: Vec<Endpoint> = Vec::new();
    let mut i: usize = 0;
    while i < scan.len()
        invariant
            i <= scan@.len(),
            forall|j: int| 0 <= j < i ==> !malformed(#[trigger] scan@[j]),
            is_ascending(frontends@),
            forall|f: Endpoint| frontends@.contains(f) <==> scan_has_service(scan@.take(i as int), f),
        decreases scan@.len() - i,
    {
        let key = match decode_frontend(scan[i].key.as_slice()) {
            Ok(fields) => fields,
            Err(e) => {
                return Err(e);
            },
        };
        match decode_backend(scan[i].value.as_slice()) {
            Ok(_) => {},
            Err(e) => {
                return Err(e);
            },
        }
        let ghost seen = scan@.take(i as int);
        let ghost next = scan@.take(i + 1);
        let frontend = Endpoint { address: key.0, port: key.1 as u16 };
        insert_new(&mut frontends, frontend);
        proof {
            assert(next.drop_last() =~= seen);
            assert forall|f: Endpoint| frontends@.contains(f) <==> scan_has_service(next, f) by {
                if scan_has_service(next, f) {
                    let j = choose|j: int| 0 <= j < next.len() && record_endpoint((#[trigger] next[j]).key@) == f;
                    if j < i {
                        assert(seen[j] == next[j]);
                        assert(scan_has_service(seen, f));
                    }
                }
                if scan_has_service(seen, f) {
                    let j = choose|j: int| 0 <= j < seen.len() && record_endpoint((#[trigger] seen[j]).key@) == f;
                    assert(next[j] == seen[j]);
                }
                if f == frontend {
                    assert(record_endpoint(next[i as int].key@) == f);
                }
            }
        }
        i = i + 1;
    }
    proof {
        assert(scan@.take(i as int) =~= scan@);
    }
    let mut listing: Vec<ServiceListing> = Vec::new();
    let mut k: usize = 0;
    while k < frontends.len()
        invariant
            k <= frontends@.len(),
            listing@.len() == k,
            forall|i: int| 0 <= i < scan@.len() ==> !malformed(#[trigger] scan@[i]),
            forall|j: int| 0 <= j < k ==> (#[trigger] listing@[j]).frontend == frontends@[j],
            forall|j: int| 0 <= j < k ==> is_ascending((#[trigger] listing@[j]).backends@),
            forall|j: int, b: BackendListing|
                0 <= j < k ==> (#[trigger] listing@[j].backends@.contains(b) <==> scan_has_backend(
                    scan@,
                    listing@[j].frontend,
                    b,
                )),
        decreases frontends@.len() - k,
    {
        let frontend = frontends[k];
        let backends = collect_backends(scan, frontend);
        listing.push(ServiceListing { frontend, backends });
        k = k + 1;
    }
    proof {
        let v = listing@;
        assert forall|f: Endpoint| lists_service(v, f) <==> scan_has_service(scan@, f) by {
            if lists_service(v, f) {
                let j = choose|j: int| 0 <= j < v.len() && (#[trigger] v[j]).frontend == f;
                assert(frontends@[j] == f);
                assert(frontends@.contains(f));
            }
            if scan_has_service(scan@, f) {
                assert(frontends@.contains(f));
                let j = choose|j: int| 0 <= j < frontends@.len() && frontends@[j] == f;
                assert(v[j].frontend == f);
            }
        }
        assert forall|i: int, j: int| 0 <= i < j < v.len() implies v[i].frontend.rank() < v[j].frontend.rank() by {
            assert(v[i].frontend == frontends@[i] && v[j].frontend == frontends@[j]);
        }
    }
    Ok(listing)
}

/// Lists the services of `table`. Fails exactly when the table holds entries
/// and they do not have the sizes of a record.
pub fn list(table: &Table) -> (r: Result<Vec<ServiceListing>, RegistryError>)
    requires
        table.wf(),
    ensures
        match r {
            Err(e) => e == RegistryError::Codec(CodecError::WrongLength) && !is_vacant(table@)
                && !holds_records(table.shape()),
            Ok(v) => (is_vacant(table@) || holds_records(table.shape())) && is_listing_of(
                v@,
                table@,
            ),
        },
{
    let scan = table.entries();
    let ghost m = table@;
    proof {
        table.lemma_wf();
        lemma_scan_matches(scan@, m, table.shape(), Endpoint { address: 0, port: 0 }, Endpoint { address: 0, port: 0 });
    }
    match list_services(&scan) {
        Err(e) => Err(RegistryError::Codec(e)),
        Ok(v) => {
            proof {
                let es = scan@;
                if es.len() > 0 {
                    assert(!malformed(es[0]));
                }
                assert forall|f: Endpoint|
                    lists_service(v@, f) <==> exists|s: u16| #[trigger]
                        m.dom().contains(frontend_key(f, s)) by {
                    if scan_has_service(es, f) {
                        let i = choose|i: int| 0 <= i < es.len() && record_endpoint((#[trigger] es[i]).key@) == f;
                        assert(m.dom().contains(es[i].key@));
                        assert(!malformed(es[i]));
                        lemma_encode_decode(es[i].key@);
                        assert(m.dom().contains(frontend_key(f, record_last(es[i].key@))));
                    }
                    if exists|s: u16| #[trigger] m.dom().contains(frontend_key(f, s)) {
                        let s = choose|s: u16| #[trigger] m.dom().contains(frontend_key(f, s));
                        assert(has_key(es, frontend_key(f, s)));
                        let i = choose|i: int| 0 <= i < es.len() && (#[trigger] es[i]).key@ == frontend_key(f, s);
                        lemma_decode_encode(f.address, f.port, s);
                        assert(record_endpoint(es[i].key@) == f);
                    }
                }
                assert forall|j: int, b: BackendListing| 0 <= j < v@.len() implies (#[trigger] v@[j].backends@.contains(b)
                    <==> has_slave(m, v@[j].frontend, b.index) && slave_target(
                    m,
                    v@[j].frontend,
                    b.index,
                ) == b.target) by {
                    let f = v@[j].frontend;
                    if scan_has_backend(es, f, b) {
                        let i = choose|i: int|
                            0 <= i < es.len() && is_slave_of(#[trigger] es[i], f) && record_last(
                                es[i].key@,
                            ) == b.index && record_endpoint(es[i].value@) == b.target;
                        assert(m.dom().contains(es[i].key@));
                        assert(!malformed(es[i]));
                        lemma_encode_decode(es[i].key@);
                    }
                    if has_slave(m, f, b.index) && slave_target(m, f, b.index) == b.target {
                        let k = frontend_key(f, b.index);
                        assert(has_key(es, k));
                        let i = choose|i: int| 0 <= i < es.len() && (#[trigger] es[i]).key@ == k;
                        lemma_decode_encode(f.address, f.port, b.index);
                        assert(m.dom().contains(es[i].key@));
                        assert(is_slave_of(es[i], f));
                    }
                }
            }
            Ok(v)
        },
    }
}

/// What adding the backend written as `backend` to the service written as
/// `service` does and answers: both are read first, the service before the
/// backend, and nothing is written unless both are endpoints.
pub open spec fn add_text_spec(m: Contents, shape: Shape, service: Seq<char>, backend: Seq<char>) -> (
    Contents,
    Result<AddOutcome, RegistryError>,
) {
    match (parse_endpoint(service), parse_endpoint(backend)) {
        (None, _) => (m, Err(RegistryError::ServiceAddress)),
        (Some(_), None) => (m, Err(RegistryError::BackendAddress)),
        (Some(s), Some(b)) => add_spec(m, shape, s, b),
    }
}

/// Attaches the backend written as `backend` to the service written as
/// `service`, both of the form `address:port`.
pub fn add(table: &mut Table, service: &str, backend: &str) -> (r: Result<AddOutcome, RegistryError>)
    requires
        old(table).wf(),
    ensures
        final(table).wf(),
        final(table).shape() == old(table).shape(),
        (final(table)@, r) == add_text_spec(old(table)@, old(table).shape(), service@, backend@),
{
    let service = match Endpoint::parse(service) {
        Some(e) => e,
        None => {
            return Err(RegistryError::ServiceAddress);
        },
    };
    let backend = match Endpoint::parse(backend) {
        Some(e) => e,
        None => {
            return Err(RegistryError::BackendAddress);
        },
    };
    add_backend(table, service, backend)
}

/// What deleting the service written as `service` does and answers; nothing
/// is removed unless it is an endpoint.
pub open spec fn del_text_spec(m: Contents, shape: Shape, service: Seq<char>) -> (
    Contents,
    Result<Seq<u16>, RegistryError>,
) {
    match parse_endpoint(service) {
        None => (m, Err(RegistryError::ServiceAddress)),
        Some(s) => del_spec(m, shape, s),
    }
}

/// Deletes every slave record of the service written as `service`, of the
/// form `address:port`, and answers with their indices in ascending order.
pub fn del(table: &mut Table, service: &str) -> (r: Result<Vec<u16>, RegistryError>)
    requires
        old(table).wf(),
    ensures
        final(table).wf(),
        final(table).shape() == old(table).shape(),
        final(table)@ == del_text_spec(old(table)@, old(table).shape(), service@).0,
        match r {
            Ok(v) => del_text_spec(old(table)@, old(table).shape(), service@).1 == Ok::<
                Seq<u16>,
                RegistryError,
            >(v@),
            Err(e) => del_text_spec(old(table)@, old(table).shape(), service@).1 == Err::<
                Seq<u16>,
                RegistryError,
            >(e),
        },
{
    match Endpoint::parse(service) {
        Some(e) => del_service(table, e),
        None => Err(RegistryError::ServiceAddress),
    }
}

} // verus!
