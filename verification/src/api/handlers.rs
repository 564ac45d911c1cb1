//! The handlers for the API endpoints.
use vstd::prelude::*;
use vstd::string::*;
use crate::api::types::ApiError;
use crate::errors::ErrorKind;
use crate::memdb::read::{
    opt_symbol_view, spec_find_tagged, spec_lookup, tagged_name, MemDb, Symbol, SymbolView,
};
use crate::memdb::types::Uuid;
use crate::sdk::{opt_view, SdkInfo};

verus! {

/// One symbol that a client asks for: the address, and the object by
/// its UUID or by its name.
pub struct SymbolQuery {
    pub object_uuid: Option<Uuid>,
    pub object_name: Option<String>,
    pub addr: u64,
}

/// What one memdb answers to a query: by UUID where the query holds
/// one, else by name and architecture where it holds a name, else
/// nothing.
pub open spec fn spec_lookup_one(
    b: Seq<u8>,
    uuid: Option<Uuid>,
    name: Option<Seq<char>>,
    cpu_name: Seq<char>,
    addr: u64,
) -> Option<SymbolView> {
    match uuid {
        Some(u) => match spec_lookup(b, u, addr) {
            Ok(found) => found,
            Err(_) => None,
        },
        None => match name {
            Some(n) => match spec_find_tagged(b, tagged_name(n, cpu_name), false) {
                Ok(Some(u)) => match spec_lookup(b, u, addr) {
                    Ok(found) => found,
                    Err(_) => None,
                },
                _ => None,
            },
            None => None,
        },
    }
}

/// The answer of the first of the first `n` memdbs that has one.
pub open spec fn spec_lookup_first(
    memdbs: Seq<Seq<u8>>,
    n: int,
    uuid: Option<Uuid>,
    name: Option<Seq<char>>,
    cpu_name: Seq<char>,
    addr: u64,
) -> Option<SymbolView>
    decreases n,
{
    if n <= 0 {
        None
    } else {
        match spec_lookup_first(memdbs, n - 1, uuid, name, cpu_name, addr) {
            Some(s) => Some(s),
            None => spec_lookup_one(memdbs[n - 1], uuid, name, cpu_name, addr),
        }
    }
}

/// Looks one symbol up in one memdb: by UUID where the query holds
/// one, else by name and architecture where it holds a name.
pub fn lookup_in(memdb: &MemDb<'_>, query: &SymbolQuery, cpu_name: &str) -> (r: Option<Symbol>)
    ensures
        opt_symbol_view(r) == spec_lookup_one(
            memdb@,
            query.object_uuid,
            opt_view(query.object_name),
            cpu_name@,
            query.addr,
        ),
{
    match &query.object_uuid {
        Some(uuid) => memdb.lookup_by_uuid(uuid, query.addr),
        None => match &query.object_name {
            Some(name) => memdb.lookup_by_object_name(name.as_str(), cpu_name, query.addr),
            None => None,
        },
    }
}

/// How the lookup of one symbol goes on.
pub enum LookupStep {
    /// The memdb of the candidate with this index is asked next.
    Ask(usize),
    /// The lookup is over, with this answer.
    Done(Option<Symbol>),
}

/// Whether a query names an object, by UUID or by name. No memdb has
/// an answer to one that does not.
pub open spec fn names_object(query: SymbolQuery) -> bool {
    query.object_uuid is Some || query.object_name is Some
}

/// Decides how the lookup of one symbol goes on, once the first
/// `asked` of `candidates` memdbs were asked, best first, and the one
/// asked last gave `last`: the first answer ends the lookup, and so
/// does the end of the candidates; for a query that names no object
/// no memdb is asked. A caller that opens a memdb only when it is
/// asked never opens one behind the first that answers.
pub fn lookup_step(
    query: &SymbolQuery,
    candidates: usize,
    asked: usize,
    last: Option<Symbol>,
) -> (r: LookupStep)
    ensures
        match r {
            LookupStep::Ask(i) => last is None && names_object(*query) && asked < candidates && i
                == asked,
            LookupStep::Done(answer) => answer == last && (last is Some || !names_object(*query)
                || asked >= candidates),
        },
{
    match last {
        Some(symbol) => LookupStep::Done(Some(symbol)),
        None => if (query.object_uuid.is_some() || query.object_name.is_some()) && asked
            < candidates {
            LookupStep::Ask(asked)
        } else {
            LookupStep::Done(None)
        },
    }
}

/// Whether there is an SDK to look in: `SdkNotFound` where no SDK fits.
pub fn check_candidates(candidates: usize) -> (r: Result<(), ApiError>)
    ensures
        match r {
            Ok(_) => candidates > 0,
            Err(e) => e matches ApiError::SdkNotFound && candidates == 0,
        },
{
    if candidates == 0 {
        Err(ApiError::SdkNotFound)
    } else {
        Ok(())
    }
}

/// The bytes of each of the memdbs of `v`.
pub open spec fn memdbs_view(v: Seq<MemDb<'_>>) -> Seq<Seq<u8>> {
    Seq::new(v.len(), |i: int| v[i]@)
}

/// Looks one symbol up in the memdbs of the SDKs that fit, best first:
/// the first memdb that knows the symbol answers.
pub fn lookup_symbol(memdbs: &Vec<MemDb<'_>>, query: &SymbolQuery, cpu_name: &str) -> (r: Option<
    Symbol,
>)
    ensures
        opt_symbol_view(r) == spec_lookup_first(
            memdbs_view(memdbs@),
            memdbs@.len() as int,
            query.object_uuid,
            opt_view(query.object_name),
            cpu_name@,
            query.addr,
        ),
{
    let mut i: usize = 0;
    while i < memdbs.len()
        invariant
            0 <= i <= memdbs@.len(),
            spec_lookup_first(
                memdbs_view(memdbs@),
                i as int,
                query.object_uuid,
                opt_view(query.object_name),
                cpu_name@,
                query.addr,
            ) is None,
        decreases memdbs@.len() - i,
    {
        let found = lookup_in(&memdbs[i], query, cpu_name);
        assert(memdbs_view(memdbs@)[i as int] == memdbs@[i as int]@);
        match found {
            Some(symbol) => {
                proof {
                    lemma_lookup_first_stays(
                        memdbs_view(memdbs@),
                        i + 1,
                        memdbs@.len() as int,
                        query.object_uuid,
                        opt_view(query.object_name),
                        cpu_name@,
                        query.addr,
                    );
                }
                return Some(symbol);
            },
            None => {},
        }
        i += 1;
    }
    None
}

/// Once one of the first `k` memdbs has answered, more memdbs change
/// nothing.
pub proof fn lemma_lookup_first_stays(
    memdbs: Seq<Seq<u8>>,
    k: int,
    n: int,
    uuid: Option<Uuid>,
    name: Option<Seq<char>>,
    cpu_name: Seq<char>,
    addr: u64,
)
    requires
        0 <= k <= n,
        spec_lookup_first(memdbs, k, uuid, name, cpu_name, addr) is Some,
    ensures
        spec_lookup_first(memdbs, n, uuid, name, cpu_name, addr) == spec_lookup_first(
            memdbs,
            k,
            uuid,
            name,
            cpu_name,
            addr,
        ),
    decreases n - k,
{
    if k < n {
        lemma_lookup_first_stays(memdbs, k, n - 1, uuid, name, cpu_name, addr);
    }
}

/// Implements the system symbol lookup: one answer for each query, in
/// the order of the queries. Fails with `SdkNotFound` where no SDK
/// fits.
pub fn lookup_symbols(memdbs: &Vec<MemDb<'_>>, queries: &Vec<SymbolQuery>, cpu_name: &str) -> (r:
    Result<Vec<Option<Symbol>>, ApiError>)
    ensures
        match r {
            Ok(answers) => memdbs@.len() > 0 && answers@.len() == queries@.len() && forall|
                i: int,
            |
                0 <= i < queries@.len() ==> opt_symbol_view(#[trigger] answers@[i])
                    == spec_lookup_first(
                    memdbs_view(memdbs@),
                    memdbs@.len() as int,
                    queries@[i].object_uuid,
                    opt_view(queries@[i].object_name),
                    cpu_name@,
                    queries@[i].addr,
                ),
            Err(e) => e matches ApiError::SdkNotFound && memdbs@.len() == 0,
        },
{
    match check_candidates(memdbs.len()) {
        Ok(_) => {},
        Err(e) => {
            return Err(e);
        },
    }
    let mut rv: Vec<Option<Symbol>> = Vec::new();
    let mut i: usize = 0;
    while i < queries.len()
        invariant
            0 <= i <= queries@.len(),
            rv@.len() == i,
            forall|k: int|
                0 <= k < i ==> opt_symbol_view(#[trigger] rv@[k]) == spec_lookup_first(
                    memdbs_view(memdbs@),
                    memdbs@.len() as int,
                    queries@[k].object_uuid,
                    opt_view(queries@[k].object_name),
                    cpu_name@,
                    queries@[k].addr,
                ),
        decreases queries@.len() - i,
    {
        let answer = lookup_symbol(memdbs, &queries[i], cpu_name);
        rv.push(answer);
        i += 1;
    }
    Ok(rv)
}

/// The ids of the SDKs, in their order.
pub fn list_sdk_ids(sdks: &Vec<SdkInfo>) -> (r: Vec<String>)
    ensures
        r@.len() == sdks@.len(),
        forall|i: int|
            0 <= i < sdks@.len() ==> (#[trigger] r@[i])@ == crate::sdk::spec_sdk_id(sdks@[i]@),
{
    let mut out: Vec<String> = Vec::new();
    let mut i: usize = 0;
    while i < sdks.len()
        invariant
            0 <= i <= sdks@.len(),
            out@.len() == i,
            forall|k: int|
                0 <= k < i ==> (#[trigger] out@[k])@ == crate::sdk::spec_sdk_id(sdks@[k]@),
        decreases sdks@.len() - i,
    {
        out.push(sdks[i].sdk_id());
        i += 1;
    }
    out
}

} // verus!
