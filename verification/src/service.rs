//! The service operations over the registry: create with a generated short
//! code, lookup, listing, deletion, and redirect with visit tracking. Every
//! mutating operation leaves the registry well formed, and the caller is
//! told exactly how the mapping changed.
use vstd::prelude::*;

use crate::digits::{digits_string, lemma_pow10_values, lemma_spec_digits_len, spec_digits};
use crate::entry::{fresh_entry, is_short_code, visited_entry, EntryModel, UrlEntry};
use crate::registry::{unique_codes, Registry};
use crate::codec::decode_document;

verus! {

/// How often `create` tries a fresh random code before giving up.
pub const MAX_CREATE_ATTEMPTS: usize = 32;

/// Why a service operation was declined.
#[derive(Clone, Copy, Debug, PartialEq, Eq, Structural)]
pub enum ServiceError {
    /// No entry is stored under the given short code.
    NotFound,
    /// Every generated candidate code was already taken.
    GenerationExhausted,
}

/// Relies on rand::random_range: a uniformly random number drawn from the
/// non-empty range below one million. Panics only if the operating system's
/// entropy source fails at a thread's first seeding.
#[verifier::external_body]
fn random_code_number() -> (r: u32)
    ensures
        r < 1000000,
{
    rand::random_range(0..1000000u32)
}

/// Relies on chrono::Utc::now and DateTime::timestamp: the current time as
/// whole seconds since the Unix epoch. Nothing is promised of the clock's
/// value; the call panics only if the host clock reads before the epoch by
/// more than the representable range.
#[verifier::external_body]
fn now_timestamp() -> (r: i64) {
    chrono::Utc::now().timestamp()
}

/// Renders a code number as a six-digit, zero-padded short code.
pub fn format_code(n: u32) -> (r: String)
    requires
        n < 1000000,
    ensures
        r@ == spec_digits(n as nat, 6),
        is_short_code(r@),
{
    proof {
        lemma_pow10_values();
        lemma_spec_digits_len(n as nat, 6);
    }
    digits_string(n as u64, 6)
}

/// Draws a random candidate short code: six decimal digits.
fn generate_code() -> (r: String)
    ensures
        is_short_code(r@),
{
    let n = random_code_number();
    format_code(n)
}

/// The URL-shortening service: the registry plus the operations on it.
pub struct UrlService {
    registry: Registry,
}

impl View for UrlService {
    type V = Map<Seq<char>, EntryModel>;

    closed spec fn view(&self) -> Map<Seq<char>, EntryModel> {
        self.registry@
    }
}

impl UrlService {
    pub closed spec fn wf(&self) -> bool {
        self.registry.wf()
    }

    /// The models of the stored entries, in storage order.
    pub closed spec fn models(&self) -> Seq<EntryModel> {
        self.registry.models()
    }

    /// A service over an empty registry.
    pub fn new() -> (r: UrlService)
        ensures
            r.wf(),
            r@ == Map::<Seq<char>, EntryModel>::empty(),
    {
        UrlService { registry: Registry::new() }
    }

    /// A service over a loaded registry.
    pub fn with_registry(registry: Registry) -> (r: UrlService)
        requires
            registry.wf(),
        ensures
            r.wf(),
            r@ == registry@,
            r.models() == registry.models(),
    {
        UrlService { registry }
    }

    /// Loads the service state from a stored document; an absent, malformed
    /// or duplicate-ridden document yields the empty mapping, never an
    /// error.
    pub fn load(doc: Option<&str>) -> (r: UrlService)
        ensures
            r.wf(),
            match doc {
                Option::Some(s) => match decode_document(s@) {
                    Option::Some(es) => if unique_codes(es) {
                        r@ == crate::registry::as_map(es)
                    } else {
                        r@ == Map::<Seq<char>, EntryModel>::empty()
                    },
                    Option::None => r@ == Map::<Seq<char>, EntryModel>::empty(),
                },
                Option::None => r@ == Map::<Seq<char>, EntryModel>::empty(),
            },
    {
        UrlService { registry: Registry::from_document(doc) }
    }

    /// Renders the full mapping as one durable document; the document reads
    /// back as exactly the stored entries.
    pub fn save_document(&self) -> (r: String)
        ensures
            r@ == crate::codec::encode_document(self.models()),
            decode_document(r@) == Option::Some(self.models()),
    {
        self.registry.to_document()
    }

    /// Returns a copy of the entry under this code, if any. No side effects.
    pub fn get(&self, code: &String) -> (r: Option<UrlEntry>)
        requires
            self.wf(),
        ensures
            match r {
                Option::Some(e) => self@.contains_key(code@) && e@ == self@[code@]
                    && e@.short_code == code@,
                Option::None => !self@.contains_key(code@),
            },
    {
        self.registry.get(code)
    }

    /// The mapping is the one the stored entries stand for.
    pub proof fn lemma_view_is_models(&self)
        ensures
            self@ == crate::registry::as_map(self.models()),
    {
        self.registry.lemma_view_is_models();
    }

    /// A well-formed service stores no two entries under one code.
    pub proof fn lemma_wf_unique_codes(&self)
        requires
            self.wf(),
        ensures
            unique_codes(self.models()),
    {
        crate::registry::lemma_wf_distinct_codes(&self.registry);
    }

    /// Returns a snapshot copy of all entries; the order is unspecified.
    pub fn list(&self) -> (r: Vec<UrlEntry>)
        requires
            self.wf(),
        ensures
            crate::entry::seq_view(r@) == self.models(),
            forall|i: int|
                0 <= i < r@.len() ==> self@.contains_key((#[trigger] r@[i])@.short_code)
                    && self@[r@[i]@.short_code] == r@[i]@,
    {
        self.registry.list()
    }

    /// Stores a fresh entry under the given code. The entry is created and
    /// returned exactly when the code is free; a taken code declines the
    /// call and leaves the mapping unchanged.
    pub fn create_with_code(&mut self, code: String, long_url: String, note: String) -> (r:
        Option<UrlEntry>)
        requires
            old(self).wf(),
        ensures
            final(self).wf(),
            old(self)@.contains_key(code@) ==> r is None && final(self)@ == old(self)@,
            !old(self)@.contains_key(code@) ==> {
                &&& r matches Option::Some(e)
                &&& e@ == fresh_entry(code@, long_url@, note@)
                &&& final(self)@ == old(self)@.insert(code@, e@)
            },
    {
        match self.registry.get(&code) {
            Option::Some(_) => Option::None,
            Option::None => {
                let entry = UrlEntry {
                    short_code: code,
                    long_url: long_url,
                    note: note,
                    visit_count: 0,
                    last_visit: Option::None,
                };
                let out = entry.clone();
                self.registry.insert(entry);
                Option::Some(out)
            },
        }
    }

    /// Creates a new entry: draws random six-digit codes until a free one is
    /// found, for a bounded number of attempts. On success the entry is
    /// stored under a code that was free before the call; when every
    /// attempt hit a taken code, the call is declined and the mapping is
    /// unchanged. While any six-digit code at all is free the draw may still
    /// be unlucky, but on a mapping with no six-digit code stored no draw
    /// can fail, so success is promised there.
    pub fn create(&mut self, long_url: String, note: String) -> (r: Result<
        UrlEntry,
        ServiceError,
    >)
        requires
            old(self).wf(),
        ensures
            final(self).wf(),
            match r {
                Result::Ok(e) => {
                    &&& is_short_code(e@.short_code)
                    &&& e@ == fresh_entry(e@.short_code, long_url@, note@)
                    &&& !old(self)@.contains_key(e@.short_code)
                    &&& final(self)@ == old(self)@.insert(e@.short_code, e@)
                },
                Result::Err(err) => err == ServiceError::GenerationExhausted && final(self)@
                    == old(self)@,
            },
            (forall|k: Seq<char>|
                is_short_code(k) ==> !(#[trigger] old(self)@.contains_key(k))) ==> r is Ok,
    {
        let mut attempt: usize = 0;
        while attempt < MAX_CREATE_ATTEMPTS
            invariant
                self.wf(),
                self@ == old(self)@,
                attempt > 0 ==> exists|k: Seq<char>|
                    is_short_code(k) && #[trigger] old(self)@.contains_key(k),
            decreases MAX_CREATE_ATTEMPTS - attempt,
        {
            let code = generate_code();
            match self.registry.get(&code) {
                Option::None => {
                    match self.create_with_code(code, long_url, note) {
                        Option::Some(e) => {
                            return Result::Ok(e);
                        },
                        Option::None => {
                            // The code was just seen to be free, so this arm
                            // cannot be reached.
                            proof {
                                assert(false);
                            }
                            return Result::Err(ServiceError::GenerationExhausted);
                        },
                    }
                },
                Option::Some(_) => {
                    proof {
                        assert(is_short_code(code@) && self@.contains_key(code@));
                    }
                    attempt += 1;
                },
            }
        }
        Result::Err(ServiceError::GenerationExhausted)
    }

    /// Deletes the entry under this code; declined with `NotFound` when no
    /// such entry exists, in which case the mapping is unchanged.
    pub fn delete(&mut self, code: &String) -> (r: Result<(), ServiceError>)
        requires
            old(self).wf(),
        ensures
            final(self).wf(),
            match r {
                Result::Ok(u) => old(self)@.contains_key(code@) && final(self)@ == old(
                    self,
                )@.remove(code@),
                Result::Err(err) => err == ServiceError::NotFound && !old(self)@.contains_key(
                    code@,
                ) && final(self)@ == old(self)@,
            },
    {
        if self.registry.remove(code) {
            Result::Ok(())
        } else {
            proof {
                assert(self@ =~= old(self)@);
            }
            Result::Err(ServiceError::NotFound)
        }
    }

    /// Redirect resolution at a given time: yields the long URL stored
    /// under the code and counts the visit at time `now`; an unknown code
    /// yields nothing and changes nothing.
    pub fn redirect_at(&mut self, code: &String, now: i64) -> (r: Option<String>)
        requires
            old(self).wf(),
        ensures
            final(self).wf(),
            match r {
                Option::Some(u) => {
                    &&& old(self)@.contains_key(code@)
                    &&& u@ == old(self)@[code@].long_url
                    &&& final(self)@ == old(self)@.insert(
                        code@,
                        visited_entry(old(self)@[code@], now),
                    )
                },
                Option::None => !old(self)@.contains_key(code@) && final(self)@ == old(self)@,
            },
    {
        match self.registry.get(code) {
            Option::Some(e) => {
                self.registry.record_visit(code, now);
                Option::Some(e.long_url)
            },
            Option::None => Option::None,
        }
    }

    /// Resolves a redirect at the current time: the returned long URL is
    /// the one stored under the code, and the entry's visit counter has
    /// grown by one with its visit time set to some time the clock read.
    pub fn redirect(&mut self, code: &String) -> (r: Option<String>)
        requires
            old(self).wf(),
        ensures
            final(self).wf(),
            match r {
                Option::Some(u) => {
                    &&& old(self)@.contains_key(code@)
                    &&& u@ == old(self)@[code@].long_url
                    &&& exists|t: i64|
                        final(self)@ == old(self)@.insert(
                            code@,
                            visited_entry(old(self)@[code@], t),
                        )
                },
                Option::None => !old(self)@.contains_key(code@) && final(self)@ == old(self)@,
            },
    {
        let now = now_timestamp();
        let r = self.redirect_at(code, now);
        proof {
            if r is Some {
                assert(self@ == old(self)@.insert(
                    code@,
                    visited_entry(old(self)@[code@], now),
                ));
            }
        }
        r
    }
}

} // verus!
