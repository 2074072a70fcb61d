//! What the registry tells its user: progress, listings and errors, as text.

use vstd::prelude::*;
use vstd::string::*;
use crate::registry::{AddOutcome, BackendListing, RegistryError, ServiceListing};
use crate::service::{CodecError, Endpoint, endpoint_text};
use crate::table::TableError;
use crate::text::{decimal_text, push_decimal};

verus! {

/// What an add says when it ends without failing.
pub open spec fn add_text(outcome: AddOutcome, service: Endpoint, backend: Endpoint) -> Seq<char> {
    match outcome {
        AddOutcome::AlreadyPresent => "Backend already in the list."@,
        AddOutcome::Added { index } => "Adding backend "@ + endpoint_text(backend) + " slave "@
            + decimal_text(index as nat) + " for frontend "@ + endpoint_text(service),
    }
}

/// Says how an add of `backend` to `service` ended.
pub fn add_message(outcome: AddOutcome, service: Endpoint, backend: Endpoint) -> (text: String)
    ensures
        text@ == add_text(outcome, service, backend),
{
    match outcome {
        AddOutcome::AlreadyPresent => String::from_str("Backend already in the list."),
        AddOutcome::Added { index } => {
            let mut text = String::from_str("Adding backend ");
            backend.push_text(&mut text);
            text.append(" slave ");
            push_decimal(&mut text, index as u64);
            text.append(" for frontend ");
            service.push_text(&mut text);
            assert(text@ =~= add_text(outcome, service, backend));
            text
        },
    }
}

/// What a delete says when it found no slave record of the service.
pub open spec fn nothing_deleted_text(service: Endpoint) -> Seq<char> {
    "No service with address "@ + endpoint_text(service) + " found. Nothing deleted."@
}

/// What a delete says of the slave record under `index` that it removes.
pub open spec fn deleting_text(service: Endpoint, index: u16) -> Seq<char> {
    "Deleting service "@ + endpoint_text(service) + " slave "@ + decimal_text(index as nat)
}

/// Says what a delete of `service` did: a line for each slave index it
/// removed, in their order, or a single line when there was none.
pub fn del_messages(service: Endpoint, deleted: &Vec<u16>) -> (lines: Vec<String>)
    ensures
        deleted@.len() == 0 ==> lines@.len() == 1 && lines@[0]@ == nothing_deleted_text(service),
        deleted@.len() > 0 ==> lines@.len() == deleted@.len(),
        deleted@.len() > 0 ==> forall|i: int|
            0 <= i < deleted@.len() ==> (#[trigger] lines@[i])@ == deleting_text(service, deleted@[i]),
{
    let mut lines: Vec<String> = Vec::new();
    if deleted.len() == 0 {
        let mut text = String::from_str("No service with address ");
        service.push_text(&mut text);
        text.append(" found. Nothing deleted.");
        assert(text@ =~= nothing_deleted_text(service));
        lines.push(text);
        return lines;
    }
    let mut i: usize = 0;
    while i < deleted.len()
        invariant
            i <= deleted@.len(),
            lines@.len() == i,
            forall|j: int| 0 <= j < i ==> (#[trigger] lines@[j])@ == deleting_text(service, deleted@[j]),
        decreases deleted@.len() - i,
    {
        let mut text = String::from_str("Deleting service ");
        service.push_text(&mut text);
        text.append(" slave ");
        push_decimal(&mut text, deleted[i] as u64);
        assert(text@ =~= deleting_text(service, deleted@[i as int]));
        lines.push(text);
        i = i + 1;
    }
    lines
}

/// The line that shows one backend of a listed service.
pub open spec fn backend_line(b: BackendListing) -> Seq<char> {
    "                       ("@ + decimal_text(b.index as nat) + ") "@ + endpoint_text(b.target)
        + "\n"@
}

/// The lines that show the backends of a listed service.
pub open spec fn backends_text(bs: Seq<BackendListing>) -> Seq<char>
    decreases bs.len(),
{
    if bs.len() == 0 {
        Seq::empty()
    } else {
        backends_text(bs.drop_last()) + backend_line(bs.last())
    }
}

/// The lines that show one listed service: its frontend, then its backends.
pub open spec fn service_text(s: ServiceListing) -> Seq<char> {
    endpoint_text(s.frontend) + " ->\n"@ + backends_text(s.backends@)
}

/// The text of a listing: its services, one after the other.
pub open spec fn listing_text(v: Seq<ServiceListing>) -> Seq<char>
    decreases v.len(),
{
    if v.len() == 0 {
        Seq::empty()
    } else {
        listing_text(v.drop_last()) + service_text(v.last())
    }
}

/// Writes a listing out: each frontend on a line of its own, followed by a
/// line for each of its backends with the backend's index and target.
pub fn render_listing(v: &Vec<ServiceListing>) -> (text: String)
    ensures
        text@ == listing_text(v@),
{
    let mut text = String::new();
    let mut i: usize = 0;
    assert(v@.take(0) =~= Seq::<ServiceListing>::empty());
    while i < v.len()
        invariant
            i <= v@.len(),
            text@ == listing_text(v@.take(i as int)),
        decreases v@.len() - i,
    {
        let ghost before = text@;
        v[i].frontend.push_text(&mut text);
        text.append(" ->\n");
        let ghost head = text@;
        let mut k: usize = 0;
        assert(v@[i as int].backends@.take(0) =~= Seq::<BackendListing>::empty());
        while k < v[i].backends.len()
            invariant
                i < v@.len(),
                k <= v@[i as int].backends@.len(),
                text@ == head + backends_text(v@[i as int].backends@.take(k as int)),
            decreases v@[i as int].backends@.len() - k,
        {
            let ghost bs = v@[i as int].backends@;
            let b = v[i].backends[k];
            text.append("                       (");
            push_decimal(&mut text, b.index as u64);
            text.append(") ");
            b.target.push_text(&mut text);
            text.append("\n");
            proof {
                assert(bs.take(k + 1).drop_last() =~= bs.take(k as int));
                assert(bs.take(k + 1).last() == b);
                assert(text@ =~= head + backends_text(bs.take(k + 1)));
            }
            k = k + 1;
        }
        proof {
            let bs = v@[i as int].backends@;
            assert(bs.take(k as int) =~= bs);
            assert(v@.take(i + 1).drop_last() =~= v@.take(i as int));
            assert(v@.take(i + 1).last() == v@[i as int]);
            assert(text@ =~= listing_text(v@.take(i + 1)));
        }
        i = i + 1;
    }
    assert(v@.take(i as int) =~= v@);
    text
}

/// What went wrong, in a few words.
pub open spec fn headline_text(e: RegistryError) -> Seq<char> {
    match e {
        RegistryError::ServiceAddress => "Failed to parse service address"@,
        RegistryError::BackendAddress => "Failed to parse backend address"@,
        RegistryError::Codec(_) => "Failed to encode or decode a record"@,
        RegistryError::Table(_) => "Map operation failed"@,
    }
}

/// What lay behind that which went wrong.
pub open spec fn cause_text(e: RegistryError) -> Seq<char> {
    match e {
        RegistryError::ServiceAddress => "invalid socket address syntax"@,
        RegistryError::BackendAddress => "invalid socket address syntax"@,
        RegistryError::Codec(CodecError::PortOutOfRange) => "port does not fit in 16 bits"@,
        RegistryError::Codec(CodecError::SlaveOutOfRange) => "slave index does not fit in 16 bits"@,
        RegistryError::Codec(CodecError::WeightOutOfRange) => "weight or count does not fit in 16 bits"@,
        RegistryError::Codec(CodecError::WrongLength) => "record has the wrong length"@,
        RegistryError::Table(TableError::KeySize) => "key has the wrong size"@,
        RegistryError::Table(TableError::ValueSize) => "value has the wrong size"@,
        RegistryError::Table(TableError::Full) => "map is full"@,
        RegistryError::Table(TableError::NotFound) => "no such entry"@,
    }
}

/// How an error with the given headline and causes is reported, the nearest
/// cause first: the headline on a line of its own, then a line for each cause.
pub open spec fn report_text(headline: Seq<char>, causes: Seq<Seq<char>>) -> Seq<char>
    decreases causes.len(),
{
    if causes.len() == 0 {
        "error: "@ + headline + "\n"@
    } else {
        report_text(headline, causes.drop_last()) + "   caused by: "@ + causes.last() + "\n"@
    }
}

/// The texts of a list of strings.
pub open spec fn texts(v: Seq<String>) -> Seq<Seq<char>> {
    v.map_values(|s: String| s@)
}

/// Reports an error with the given headline and causes in writing, the
/// nearest cause first.
pub fn report(headline: &str, causes: &Vec<String>) -> (text: String)
    ensures
        text@ == report_text(headline@, texts(causes@)),
{
    let mut text = String::from_str("error: ");
    text.append(headline);
    text.append("\n");
    let ghost all = texts(causes@);
    let mut i: usize = 0;
    assert(all.take(0) =~= Seq::<Seq<char>>::empty());
    while i < causes.len()
        invariant
            i <= causes@.len(),
            all == texts(causes@),
            text@ == report_text(headline@, all.take(i as int)),
        decreases causes@.len() - i,
    {
        text.append("   caused by: ");
        text.append(causes[i].as_str());
        text.append("\n");
        proof {
            assert(all.take(i + 1).drop_last() =~= all.take(i as int));
            assert(all.take(i + 1).last() == causes@[i as int]@);
            assert(text@ =~= report_text(headline@, all.take(i + 1)));
        }
        i = i + 1;
    }
    assert(all.take(i as int) =~= all);
    text
}

/// Says in a few words what went wrong.
pub fn headline(e: RegistryError) -> (text: &'static str)
    ensures
        text@ == headline_text(e),
{
    match e {
        RegistryError::ServiceAddress => "Failed to parse service address",
        RegistryError::BackendAddress => "Failed to parse backend address",
        RegistryError::Codec(_) => "Failed to encode or decode a record",
        RegistryError::Table(_) => "Map operation failed",
    }
}

/// Says what lay behind that which went wrong.
pub fn cause(e: RegistryError) -> (text: &'static str)
    ensures
        text@ == cause_text(e),
{
    match e {
        RegistryError::ServiceAddress => "invalid socket address syntax",
        RegistryError::BackendAddress => "invalid socket address syntax",
        RegistryError::Codec(CodecError::PortOutOfRange) => "port does not fit in 16 bits",
        RegistryError::Codec(CodecError::SlaveOutOfRange) => "slave index does not fit in 16 bits",
        RegistryError::Codec(CodecError::WeightOutOfRange) => "weight or count does not fit in 16 bits",
        RegistryError::Codec(CodecError::WrongLength) => "record has the wrong length",
        RegistryError::Table(TableError::KeySize) => "key has the wrong size",
        RegistryError::Table(TableError::ValueSize) => "value has the wrong size",
        RegistryError::Table(TableError::Full) => "map is full",
        RegistryError::Table(TableError::NotFound) => "no such entry",
    }
}

/// Reports a registry error in writing: what went wrong, and its cause.
pub fn report_error(e: RegistryError) -> (text: String)
    ensures
        text@ == report_text(headline_text(e), seq![cause_text(e)]),
{
    let mut causes: Vec<String> = Vec::new();
    causes.push(String::from_str(cause(e)));
    assert(texts(causes@) =~= seq![cause_text(e)]);
    report(headline(e), &causes)
}

} // verus!
