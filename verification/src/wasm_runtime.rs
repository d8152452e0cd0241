//! Cache of instantiated guest runtimes and their decoded version records.
//!
//! The cache maps an execution method and a code hash to one reusable guest
//! instance together with the version record the instance reported through
//! its `Core_version` entry.  A fetch resolves the current code hash and
//! heap-page configuration from the caller's storage view, reuses the cached
//! instance when the heap configuration still applies, and rebuilds it
//! otherwise.  Build failures are cached too, so repeated fetches of broken
//! code do not retry instantiation; `invalidate_runtime` removes an entry
//! unconditionally, for use after a panic crossed the guest boundary.

use crate::scale::{compact_ok, compact_size, compact_value, decode_compact_u32, decode_u32_le,
    le_value};
use vstd::prelude::*;

verus! {

/// Specification of different methods of executing the runtime code.
#[derive(Debug, PartialEq, Eq, Structural, Hash, Copy, Clone)]
pub enum WasmExecutionMethod {
    /// Uses an interpreter.
    Interpreted,
    /// Uses an ahead-of-time compiler.
    Compiled,
}

/// Content hash of the guest module bytes: 32 bytes, held as four
/// little-endian 64-bit words.
#[derive(Debug, PartialEq, Eq, Structural, Hash, Copy, Clone)]
pub struct CodeHash {
    /// Bytes 0 to 7.
    pub w0: u64,
    /// Bytes 8 to 15.
    pub w1: u64,
    /// Bytes 16 to 23.
    pub w2: u64,
    /// Bytes 24 to 31.
    pub w3: u64,
}

/// Why building a versioned runtime failed.
#[derive(Debug, PartialEq, Eq)]
pub enum InstantiationError {
    /// The engine rejected the module; the payload is the engine's message.
    Engine(String),
    /// The version probe unwound native frames; the instance was discarded.
    VersionProbePanicked,
    /// The version probe reported an execution error, with its message.
    VersionCallFailed(String),
    /// The version probe's result bytes do not decode as a version record.
    VersionDecodeFailed,
}

/// Failure reported at the engine interface or while building.
#[derive(Debug, PartialEq, Eq)]
pub enum WasmError {
    /// The `:code` bytes were not in storage when building.
    CodeNotFound,
    /// The module exports no linear memory named `memory`.
    InvalidMemoryReference,
    /// Building the instance or probing its version failed.
    Instantiation(InstantiationError),
}

/// Error the cache reports to its callers.
#[derive(Debug, PartialEq, Eq)]
pub enum Error {
    /// The runtime code is unusable: its hash is missing from storage, or
    /// its build failed; wraps the recorded build error.
    InvalidCode(WasmError),
}

/// An exact copy of a build error, so it can be both cached and reported.
pub fn clone_wasm_error(e: &WasmError) -> (r: WasmError)
    ensures
        r == *e,
{
    match e {
        WasmError::CodeNotFound => WasmError::CodeNotFound,
        WasmError::InvalidMemoryReference => WasmError::InvalidMemoryReference,
        WasmError::Instantiation(cause) => WasmError::Instantiation(
            match cause {
                InstantiationError::Engine(m) => InstantiationError::Engine(m.clone()),
                InstantiationError::VersionProbePanicked => {
                    InstantiationError::VersionProbePanicked
                },
                InstantiationError::VersionCallFailed(m) => InstantiationError::VersionCallFailed(
                    m.clone(),
                ),
                InstantiationError::VersionDecodeFailed => InstantiationError::VersionDecodeFailed,
            },
        ),
    }
}

/// One entry of the version record's api list: an eight-byte api identifier
/// and the version of that api the runtime implements.
#[derive(Debug, PartialEq, Eq)]
pub struct ApiVersion {
    /// The eight-byte api identifier.
    pub id: Vec<u8>,
    /// The implemented version of that api.
    pub version: u32,
}

/// The version record a runtime reports through `Core_version`.
#[derive(Debug, PartialEq, Eq)]
pub struct RuntimeVersion {
    /// Name of the chain specification the runtime serves.
    pub spec_name: Vec<u8>,
    /// Name of this implementation of the specification.
    pub impl_name: Vec<u8>,
    /// Version of the authorship interface.
    pub authoring_version: u32,
    /// Version of the runtime specification.
    pub spec_version: u32,
    /// Version of this implementation.
    pub impl_version: u32,
    /// The apis the runtime supports.
    pub apis: Vec<ApiVersion>,
}

/// Mathematical value of a version record.
#[verifier::ext_equal]
pub struct VersionView {
    /// Name of the chain specification.
    pub spec_name: Seq<u8>,
    /// Name of the implementation.
    pub impl_name: Seq<u8>,
    /// Version of the authorship interface.
    pub authoring_version: int,
    /// Version of the runtime specification.
    pub spec_version: int,
    /// Version of the implementation.
    pub impl_version: int,
    /// Supported apis as (identifier, version) pairs.
    pub apis: Seq<(Seq<u8>, int)>,
}

impl View for RuntimeVersion {
    type V = VersionView;

    open spec fn view(&self) -> VersionView {
        VersionView {
            spec_name: self.spec_name@,
            impl_name: self.impl_name@,
            authoring_version: self.authoring_version as int,
            spec_version: self.spec_version as int,
            impl_version: self.impl_version as int,
            apis: self.apis@.map_values(|a: ApiVersion| (a.id@, a.version as int)),
        }
    }
}

/// An exact copy of a version record.
pub fn clone_version(v: &RuntimeVersion) -> (r: RuntimeVersion)
    ensures
        r@ == v@,
{
    let mut apis: Vec<ApiVersion> = Vec::new();
    let mut i: usize = 0;
    while i < v.apis.len()
        invariant
            i <= v.apis@.len(),
            apis@.len() == i,
            forall|j: int|
                0 <= j < i ==> (#[trigger] apis@[j]).id@ == v.apis@[j].id@ && apis@[j].version
                    == v.apis@[j].version,
        decreases v.apis@.len() - i,
    {
        apis.push(ApiVersion { id: clone_bytes(&v.apis[i].id), version: v.apis[i].version });
        i = i + 1;
    }
    let r = RuntimeVersion {
        spec_name: clone_bytes(&v.spec_name),
        impl_name: clone_bytes(&v.impl_name),
        authoring_version: v.authoring_version,
        spec_version: v.spec_version,
        impl_version: v.impl_version,
        apis,
    };
    proof {
        assert(r@.apis =~= v@.apis);
    }
    r
}

/// An exact copy of a byte vector.
pub fn clone_bytes(v: &Vec<u8>) -> (r: Vec<u8>)
    ensures
        r@ == v@,
{
    let mut r: Vec<u8> = Vec::new();
    let mut i: usize = 0;
    while i < v.len()
        invariant
            i <= v@.len(),
            r@ == v@.take(i as int),
        decreases v@.len() - i,
    {
        r.push(v[i]);
        proof {
            assert(v@.take(i as int).push(v@[i as int]) =~= v@.take(i + 1));
        }
        i = i + 1;
    }
    proof {
        assert(v@.take(v@.len() as int) =~= v@);
    }
    r
}

/// The well-known storage key `:code`, under which the guest module bytes
/// live.
pub fn code_key() -> (r: Vec<u8>)
    ensures
        r@ == spec_code_key(),
{
    let mut v: Vec<u8> = Vec::new();
    v.push(58);
    v.push(99);
    v.push(111);
    v.push(100);
    v.push(101);
    proof {
        assert(v@ =~= spec_code_key());
    }
    v
}

/// The bytes of `:code`.
pub open spec fn spec_code_key() -> Seq<u8> {
    seq![58u8, 99u8, 111u8, 100u8, 101u8]
}

/// The well-known storage key `:heappages`, holding the heap-page count as a
/// little-endian unsigned 64-bit integer.
pub fn heap_pages_key() -> (r: Vec<u8>)
    ensures
        r@ == spec_heap_pages_key(),
{
    let mut v: Vec<u8> = Vec::new();
    v.push(58);
    v.push(104);
    v.push(101);
    v.push(97);
    v.push(112);
    v.push(112);
    v.push(97);
    v.push(103);
    v.push(101);
    v.push(115);
    proof {
        assert(v@ =~= spec_heap_pages_key());
    }
    v
}

/// The bytes of `:heappages`.
pub open spec fn spec_heap_pages_key() -> Seq<u8> {
    seq![58u8, 104u8, 101u8, 97u8, 112u8, 112u8, 97u8, 103u8, 101u8, 115u8]
}

/// Keyed-storage view the cache resolves the runtime code and heap
/// configuration from.  The surrounding node implements it; nothing is
/// assumed about what storage holds.
pub trait Externalities {
    /// Value at `key` prior to any in-flight mutation.
    fn original_storage(&self, key: &[u8]) -> Option<Vec<u8>>;

    /// Content hash of the value at `key` prior to any in-flight mutation.
    fn original_storage_hash(&self, key: &[u8]) -> Option<CodeHash>;

    /// Current value at `key`.
    fn storage(&self, key: &[u8]) -> Option<Vec<u8>>;
}

/// How a guest call can fail, as the engine adapter reports it.
#[derive(Debug, PartialEq, Eq)]
pub enum GuestCallError {
    /// The panic-safe boundary caught a native unwind; the instance is
    /// considered poisoned.
    Panicked,
    /// The engine reported an execution error, with its message.
    Failed(String),
}

/// A guest runtime instance, as the engine adapter exposes it to the cache.
/// The engines themselves live outside this crate; the contracts here state
/// only what the engine interface documents: an instance is created with the
/// requested heap-page count, and a heap-page update always succeeds when the
/// count would not change.  Every call runs under the node's panic-safe
/// boundary and sees guest memory reset to the initial image.
pub trait WasmRuntime<E>: Sized {
    /// The heap-page count the instance is currently configured with.
    spec fn spec_heap_pages(&self) -> u64;

    /// Build an instance of the module `code` with `heap_pages` pages of
    /// guest memory, using the given execution method.
    fn create_instance(
        wasm_method: WasmExecutionMethod,
        code: &[u8],
        heap_pages: u64,
    ) -> (r: Result<Self, WasmError>)
        ensures
            r matches Ok(rt) ==> rt.spec_heap_pages() == heap_pages,
    ;

    /// Attempt to update the number of heap pages available during
    /// execution.  Returns false if the update cannot be applied; always
    /// returns true when the count would not change from its current value.
    fn update_heap_pages(&mut self, heap_pages: u64) -> (r: bool)
        ensures
            old(self).spec_heap_pages() == heap_pages ==> r,
            r ==> final(self).spec_heap_pages() == heap_pages,
            !r ==> final(self).spec_heap_pages() == old(self).spec_heap_pages(),
    ;

    /// Call a method in the guest by name with the given argument bytes,
    /// under the panic-safe boundary.  Returns the encoded result on
    /// success.  A call never changes the heap-page configuration.
    fn call(&mut self, ext: &mut E, method: &str, data: &[u8]) -> (r: Result<
        Vec<u8>,
        GuestCallError,
    >)
        ensures
            final(self).spec_heap_pages() == old(self).spec_heap_pages(),
    ;
}

/// Mathematical value of a sequence of api entries.
pub open spec fn apis_view(s: Seq<ApiVersion>) -> Seq<(Seq<u8>, int)> {
    s.map_values(|a: ApiVersion| (a.id@, a.version as int))
}

/// Decode `n` api entries starting at `pos`: each is an eight-byte
/// identifier followed by a little-endian 32-bit version.  Yields the entries
/// and the position just past them, or nothing when the bytes run out.
pub open spec fn spec_decode_apis(b: Seq<u8>, pos: int, n: int) -> Option<(Seq<(Seq<u8>, int)>, int)>
    decreases n,
{
    if n <= 0 {
        Some((Seq::empty(), pos))
    } else if pos + 12 <= b.len() {
        match spec_decode_apis(b, pos + 12, n - 1) {
            Some((rest, end)) => Some(
                (seq![(b.subrange(pos, pos + 8), le_value(b, pos + 8, 4))] + rest, end),
            ),
            None => None,
        }
    } else {
        None
    }
}

/// Decode a version record: two compact-length-prefixed names, three
/// little-endian 32-bit versions, and a compact-counted api list.  Trailing
/// bytes are ignored.
pub open spec fn spec_decode_version(b: Seq<u8>) -> Option<VersionView> {
    if !compact_ok(b, 0) {
        None
    } else {
        let n1 = compact_value(b, 0);
        let p1 = compact_size(b, 0);
        if p1 + n1 > b.len() {
            None
        } else {
            let p2 = p1 + n1;
            if !compact_ok(b, p2) {
                None
            } else {
                let n2 = compact_value(b, p2);
                let p3 = p2 + compact_size(b, p2);
                if p3 + n2 > b.len() {
                    None
                } else {
                    let p4 = p3 + n2;
                    if p4 + 12 > b.len() {
                        None
                    } else {
                        let p5 = p4 + 12;
                        if !compact_ok(b, p5) {
                            None
                        } else {
                            let napis = compact_value(b, p5);
                            let p6 = p5 + compact_size(b, p5);
                            match spec_decode_apis(b, p6, napis) {
                                Some((apis, _end)) => Some(
                                    VersionView {
                                        spec_name: b.subrange(p1, p1 + n1),
                                        impl_name: b.subrange(p3, p3 + n2),
                                        authoring_version: le_value(b, p4, 4),
                                        spec_version: le_value(b, p4 + 4, 4),
                                        impl_version: le_value(b, p4 + 8, 4),
                                        apis,
                                    },
                                ),
                                None => None,
                            }
                        }
                    }
                }
            }
        }
    }
}

/// Decode the byte string a `Core_version` probe returned as a version
/// record.  `None` exactly when the bytes are not a well-formed record.
pub fn decode_runtime_version(bytes: &Vec<u8>) -> (r: Option<RuntimeVersion>)
    ensures
        r matches Some(v) ==> spec_decode_version(bytes@) == Some(v@),
        r is None ==> spec_decode_version(bytes@) is None,
{
    let (n1, p1) = match decode_compact_u32(bytes, 0) {
        Some(x) => x,
        None => {
            return None;
        },
    };
    let (spec_name, p2) = match crate::scale::read_bytes(bytes, p1, n1 as usize) {
        Some(x) => x,
        None => {
            return None;
        },
    };
    let (n2, p3) = match decode_compact_u32(bytes, p2) {
        Some(x) => x,
        None => {
            return None;
        },
    };
    let (impl_name, p4) = match crate::scale::read_bytes(bytes, p3, n2 as usize) {
        Some(x) => x,
        None => {
            return None;
        },
    };
    let (authoring_version, p5) = match decode_u32_le(bytes, p4) {
        Some(x) => x,
        None => {
            return None;
        },
    };
    let (spec_version, p6) = match decode_u32_le(bytes, p5) {
        Some(x) => x,
        None => {
            return None;
        },
    };
    let (impl_version, p7) = match decode_u32_le(bytes, p6) {
        Some(x) => x,
        None => {
            return None;
        },
    };
    let (napis, p8) = match decode_compact_u32(bytes, p7) {
        Some(x) => x,
        None => {
            proof {
                assert(!compact_ok(bytes@, p7 as int));
                assert(spec_decode_version(bytes@) is None);
            }
            return None;
        },
    };
    let ghost full = spec_decode_apis(bytes@, p8 as int, napis as int);
    let mut apis: Vec<ApiVersion> = Vec::new();
    proof {
        assert(spec_decode_version(bytes@) == (match full {
            Some((apis2, end2)) => Some(
                VersionView {
                    spec_name: spec_name@,
                    impl_name: impl_name@,
                    authoring_version: authoring_version as int,
                    spec_version: spec_version as int,
                    impl_version: impl_version as int,
                    apis: apis2,
                },
            ),
            None => None::<VersionView>,
        }));
        match full {
            Some((rest, end)) => {
                assert(apis_view(apis@) + rest =~= rest);
            },
            None => {},
        }
    }
    let mut pos: usize = p8;
    let mut k: u32 = 0;
    while k < napis
        invariant
            k <= napis,
            pos <= bytes@.len(),
            full == spec_decode_apis(bytes@, p8 as int, napis as int),
            full is None ==> spec_decode_version(bytes@) is None,
            apis@.len() == k,
            full == (match spec_decode_apis(bytes@, pos as int, napis - k) {
                Some((rest, end)) => Some((apis_view(apis@) + rest, end)),
                None => None::<(Seq<(Seq<u8>, int)>, int)>,
            }),
        decreases napis - k,
    {
        let ghost pos0 = pos as int;
        let ghost apis0 = apis@;
        let (id, mid) = match crate::scale::read_bytes(bytes, pos, 8) {
            Some(x) => x,
            None => {
                return None;
            },
        };
        let (ver, next) = match decode_u32_le(bytes, mid) {
            Some(x) => x,
            None => {
                return None;
            },
        };
        apis.push(ApiVersion { id, version: ver });
        pos = next;
        k = k + 1;
        proof {
            let stepped = spec_decode_apis(bytes@, pos0 + 12, napis - k);
            let item = (bytes@.subrange(pos0, pos0 + 8), le_value(bytes@, pos0 + 8, 4));
            assert(pos == pos0 + 12);
            assert(spec_decode_apis(bytes@, pos0, napis - k + 1) == (match stepped {
                Some((rest, end)) => Some((seq![item] + rest, end)),
                None => None::<(Seq<(Seq<u8>, int)>, int)>,
            }));
            assert(apis_view(apis@) =~~= apis_view(apis0) + seq![item]);
            match stepped {
                Some((rest, end)) => {
                    assert((apis_view(apis0) + seq![item]) + rest =~= apis_view(apis0) + (
                    seq![item] + rest));
                    assert(full == Some((apis_view(apis0) + (seq![item] + rest), end)));
                    assert(apis_view(apis0) + (seq![item] + rest) == apis_view(apis@) + rest);
                    assert(full == (match spec_decode_apis(bytes@, pos as int, napis - k) {
                        Some((rest2, end2)) => Some((apis_view(apis@) + rest2, end2)),
                        None => None::<(Seq<(Seq<u8>, int)>, int)>,
                    }));
                },
                None => {
                    assert(full is None);
                },
            }
        }
    }
    proof {
        assert(spec_decode_apis(bytes@, pos as int, 0) == Some(
            (Seq::<(Seq<u8>, int)>::empty(), pos as int),
        ));
        assert(apis_view(apis@) + Seq::<(Seq<u8>, int)>::empty() =~= apis_view(apis@));
    }
    let version = RuntimeVersion {
        spec_name,
        impl_name,
        authoring_version,
        spec_version,
        impl_version,
        apis,
    };
    proof {
        assert(spec_decode_version(bytes@) matches Some(vv) && vv =~= version@);
    }
    Some(version)
}

/// Create a runtime instance with the given `code`, dispatching on the
/// chosen execution method.
pub fn create_wasm_runtime_with_code<E, R: WasmRuntime<E>>(
    wasm_method: WasmExecutionMethod,
    heap_pages: u64,
    code: &[u8],
) -> (r: Result<R, WasmError>)
    ensures
        r matches Ok(rt) ==> rt.spec_heap_pages() == heap_pages,
{
    R::create_instance(wasm_method, code, heap_pages)
}

/// A runtime instance along with its cached version record.
pub struct VersionedRuntime<R> {
    /// The guest instance.
    pub runtime: R,
    /// Runtime version according to `Core_version`.
    pub version: RuntimeVersion,
}

/// One cache slot: the key and the build outcome recorded under it.
pub struct CacheEntry<R> {
    /// Execution method the instance was built for.
    pub wasm_method: WasmExecutionMethod,
    /// Hash of the code the instance was built from.
    pub code_hash: CodeHash,
    /// The built runtime, or the error the build ended in.
    pub result: Result<VersionedRuntime<R>, WasmError>,
}

/// The entry is keyed by the given method and hash.
pub open spec fn entry_is<R>(e: CacheEntry<R>, m: WasmExecutionMethod, h: CodeHash) -> bool {
    e.wasm_method == m && e.code_hash == h
}

/// Some entry is keyed by the given method and hash.
pub open spec fn cache_has<R>(s: Seq<CacheEntry<R>>, m: WasmExecutionMethod, h: CodeHash) -> bool {
    exists|i: int| 0 <= i < s.len() && entry_is(#[trigger] s[i], m, h)
}

/// Position of the entry keyed by the given method and hash.
pub open spec fn cache_index<R>(s: Seq<CacheEntry<R>>, m: WasmExecutionMethod, h: CodeHash) -> int {
    choose|i: int| 0 <= i < s.len() && entry_is(#[trigger] s[i], m, h)
}

/// The outcome recorded under the given method and hash.
pub open spec fn cache_result<R>(s: Seq<CacheEntry<R>>, m: WasmExecutionMethod, h: CodeHash) -> Result<
    VersionedRuntime<R>,
    WasmError,
> {
    s[cache_index(s, m, h)].result
}

/// No two entries share a key.
pub open spec fn cache_wf<R>(s: Seq<CacheEntry<R>>) -> bool {
    forall|i: int, j: int|
        0 <= i < j < s.len() ==> !entry_is(#[trigger] s[j], (#[trigger] s[i]).wasm_method, s[i].code_hash)
}

/// Every entry keyed other than `(m, h)` is present in `b` exactly as in `a`.
pub open spec fn cache_others_same<R>(
    a: Seq<CacheEntry<R>>,
    b: Seq<CacheEntry<R>>,
    m: WasmExecutionMethod,
    h: CodeHash,
) -> bool {
    forall|m2: WasmExecutionMethod, h2: CodeHash|
        !(m2 == m && h2 == h) ==> ((#[trigger] cache_has(b, m2, h2) <==> cache_has(a, m2, h2)) && (
        cache_has(a, m2, h2) ==> cache_result(b, m2, h2) == cache_result(a, m2, h2)))
}

/// In a duplicate-free cache the entry keyed like entry `i` is entry `i`.
pub proof fn lemma_cache_at<R>(s: Seq<CacheEntry<R>>, i: int)
    requires
        cache_wf(s),
        0 <= i < s.len(),
    ensures
        cache_has(s, s[i].wasm_method, s[i].code_hash),
        cache_index(s, s[i].wasm_method, s[i].code_hash) == i,
        cache_result(s, s[i].wasm_method, s[i].code_hash) == s[i].result,
{
    assert(cache_has(s, s[i].wasm_method, s[i].code_hash));
    let j = cache_index(s, s[i].wasm_method, s[i].code_hash);
    if j != i {
        if j < i {
            assert(!entry_is(s[i], s[j].wasm_method, s[j].code_hash));
        } else {
            assert(!entry_is(s[j], s[i].wasm_method, s[i].code_hash));
        }
    }
}

/// Removing entry `p` removes exactly its key.
#[verifier::spinoff_prover]
proof fn lemma_cache_remove<R>(s0: Seq<CacheEntry<R>>, s1: Seq<CacheEntry<R>>, p: int)
    requires
        cache_wf(s0),
        0 <= p < s0.len(),
        s1 == s0.remove(p),
    ensures
        cache_wf(s1),
        !cache_has(s1, s0[p].wasm_method, s0[p].code_hash),
        cache_others_same(s0, s1, s0[p].wasm_method, s0[p].code_hash),
{
    let m = s0[p].wasm_method;
    let h = s0[p].code_hash;
    assert(forall|j: int| 0 <= j < p ==> s1[j] == s0[j]);
    assert(forall|j: int| p <= j < s1.len() ==> s1[j] == s0[j + 1]);
    assert(cache_wf(s1)) by {
        assert forall|i: int, j: int| 0 <= i < j < s1.len() implies !entry_is(
            #[trigger] s1[j],
            (#[trigger] s1[i]).wasm_method,
            s1[i].code_hash,
        ) by {
            if i < p && j < p {
            } else if i < p {
                assert(s1[j] == s0[j + 1]);
            } else {
                assert(s1[i] == s0[i + 1] && s1[j] == s0[j + 1]);
            }
        }
    }
    assert(!cache_has(s1, m, h)) by {
        if cache_has(s1, m, h) {
            let j = choose|j: int| 0 <= j < s1.len() && entry_is(#[trigger] s1[j], m, h);
            if j < p {
                assert(!entry_is(s0[p], s0[j].wasm_method, s0[j].code_hash));
            } else {
                assert(s1[j] == s0[j + 1]);
                assert(!entry_is(s0[j + 1], s0[p].wasm_method, s0[p].code_hash));
            }
        }
    }
    assert forall|m2: WasmExecutionMethod, h2: CodeHash|
        !(m2 == m && h2 == h) implies ((#[trigger] cache_has(s1, m2, h2) <==> cache_has(
        s0,
        m2,
        h2,
    )) && (cache_has(s0, m2, h2) ==> cache_result(s1, m2, h2) == cache_result(s0, m2, h2))) by {
        if cache_has(s1, m2, h2) {
            let j = choose|j: int| 0 <= j < s1.len() && entry_is(#[trigger] s1[j], m2, h2);
            if j < p {
                assert(entry_is(s0[j], m2, h2));
            } else {
                assert(entry_is(s0[j + 1], m2, h2));
            }
            assert(cache_has(s0, m2, h2));
        }
        if cache_has(s0, m2, h2) {
            let j = choose|j: int| 0 <= j < s0.len() && entry_is(#[trigger] s0[j], m2, h2);
            assert(j != p);
            if j < p {
                assert(entry_is(s1[j], m2, h2));
                assert(cache_has(s1, m2, h2));
                lemma_cache_at(s0, j);
                lemma_cache_at(s1, j);
            } else {
                assert(entry_is(s1[j - 1], m2, h2));
                assert(cache_has(s1, m2, h2));
                lemma_cache_at(s0, j);
                lemma_cache_at(s1, j - 1);
            }
        }
    }
}

/// Inserting an entry under a fresh key adds exactly that key.
#[verifier::spinoff_prover]
proof fn lemma_cache_insert<R>(
    s0: Seq<CacheEntry<R>>,
    s1: Seq<CacheEntry<R>>,
    p: int,
    e: CacheEntry<R>,
)
    requires
        cache_wf(s0),
        !cache_has(s0, e.wasm_method, e.code_hash),
        0 <= p <= s0.len(),
        s1 == s0.insert(p, e),
    ensures
        cache_wf(s1),
        cache_has(s1, e.wasm_method, e.code_hash),
        cache_result(s1, e.wasm_method, e.code_hash) == e.result,
        cache_others_same(s0, s1, e.wasm_method, e.code_hash),
{
    let m = e.wasm_method;
    let h = e.code_hash;
    assert(forall|j: int| 0 <= j < p ==> s1[j] == s0[j]);
    assert(s1[p] == e);
    assert(forall|j: int| p < j < s1.len() ==> s1[j] == s0[j - 1]);
    assert(cache_wf(s1)) by {
        assert forall|i: int, j: int| 0 <= i < j < s1.len() implies !entry_is(
            #[trigger] s1[j],
            (#[trigger] s1[i]).wasm_method,
            s1[i].code_hash,
        ) by {
            if i == p {
                if entry_is(s1[j], m, h) {
                    assert(entry_is(s0[j - 1], m, h));
                }
            } else if j == p {
                if entry_is(e, s1[i].wasm_method, s1[i].code_hash) {
                    assert(entry_is(s0[i], m, h));
                }
            } else {
                let i0: int = if i < p {
                    i
                } else {
                    i - 1
                };
                let j0: int = if j < p {
                    j
                } else {
                    j - 1
                };
                assert(s1[i] == s0[i0] && s1[j] == s0[j0]);
            }
        }
    }
    lemma_cache_at(s1, p);
    assert forall|m2: WasmExecutionMethod, h2: CodeHash|
        !(m2 == m && h2 == h) implies ((#[trigger] cache_has(s1, m2, h2) <==> cache_has(
        s0,
        m2,
        h2,
    )) && (cache_has(s0, m2, h2) ==> cache_result(s1, m2, h2) == cache_result(s0, m2, h2))) by {
        if cache_has(s1, m2, h2) {
            let j = choose|j: int| 0 <= j < s1.len() && entry_is(#[trigger] s1[j], m2, h2);
            assert(j != p);
            if j < p {
                assert(entry_is(s0[j], m2, h2));
            } else {
                assert(entry_is(s0[j - 1], m2, h2));
            }
            assert(cache_has(s0, m2, h2));
        }
        if cache_has(s0, m2, h2) {
            let j = choose|j: int| 0 <= j < s0.len() && entry_is(#[trigger] s0[j], m2, h2);
            lemma_cache_at(s0, j);
            if j < p {
                assert(entry_is(s1[j], m2, h2));
                assert(cache_has(s1, m2, h2));
                lemma_cache_at(s1, j);
            } else {
                assert(entry_is(s1[j + 1], m2, h2));
                assert(cache_has(s1, m2, h2));
                lemma_cache_at(s1, j + 1);
            }
        }
    }
}

/// Replacing entry `p` by one with the same key updates the mapping at that
/// key alone.
#[verifier::spinoff_prover]
proof fn lemma_cache_update<R>(
    s0: Seq<CacheEntry<R>>,
    s1: Seq<CacheEntry<R>>,
    p: int,
    e: CacheEntry<R>,
)
    requires
        cache_wf(s0),
        0 <= p < s0.len(),
        entry_is(s0[p], e.wasm_method, e.code_hash),
        s1 == s0.update(p, e),
    ensures
        cache_wf(s1),
        cache_has(s1, e.wasm_method, e.code_hash),
        cache_result(s1, e.wasm_method, e.code_hash) == e.result,
        cache_others_same(s0, s1, e.wasm_method, e.code_hash),
{
    let m = e.wasm_method;
    let h = e.code_hash;
    assert(forall|j: int| 0 <= j < s1.len() && j != p ==> s1[j] == s0[j]);
    assert(s1[p] == e);
    assert(cache_wf(s1)) by {
        assert forall|i: int, j: int| 0 <= i < j < s1.len() implies !entry_is(
            #[trigger] s1[j],
            (#[trigger] s1[i]).wasm_method,
            s1[i].code_hash,
        ) by {
            assert(!entry_is(s0[j], s0[i].wasm_method, s0[i].code_hash));
        }
    }
    lemma_cache_at(s1, p);
    assert forall|m2: WasmExecutionMethod, h2: CodeHash|
        !(m2 == m && h2 == h) implies ((#[trigger] cache_has(s1, m2, h2) <==> cache_has(
        s0,
        m2,
        h2,
    )) && (cache_has(s0, m2, h2) ==> cache_result(s1, m2, h2) == cache_result(s0, m2, h2))) by {
        if cache_has(s1, m2, h2) {
            let j = choose|j: int| 0 <= j < s1.len() && entry_is(#[trigger] s1[j], m2, h2);
            assert(j != p);
            assert(entry_is(s0[j], m2, h2));
            assert(cache_has(s0, m2, h2));
        }
        if cache_has(s0, m2, h2) {
            let j = choose|j: int| 0 <= j < s0.len() && entry_is(#[trigger] s0[j], m2, h2);
            lemma_cache_at(s0, j);
            assert(j != p);
            assert(entry_is(s1[j], m2, h2));
            assert(cache_has(s1, m2, h2));
            lemma_cache_at(s1, j);
        }
    }
}

/// Cache of runtime instances along with their version records, keyed by the
/// execution method and the hash of their code.  The cache grows only: an
/// entry leaves it through `invalidate_runtime` alone.
pub struct RuntimesCache<R> {
    /// One entry per (execution method, code hash) pair.
    pub instances: Vec<CacheEntry<R>>,
}

impl<R> RuntimesCache<R> {
    /// The cache's invariant: one entry per key.
    pub open spec fn wf(&self) -> bool {
        cache_wf(self.instances@)
    }

    /// Creates a new instance of a runtimes cache.
    pub fn new() -> (r: RuntimesCache<R>)
        ensures
            r.instances@.len() == 0,
            r.wf(),
    {
        RuntimesCache { instances: Vec::new() }
    }

    /// Position of the entry keyed `(wasm_method, code_hash)`, or the cache's
    /// size when there is none.
    fn find_entry(&self, wasm_method: WasmExecutionMethod, code_hash: CodeHash) -> (r: usize)
        requires
            self.wf(),
        ensures
            r <= self.instances@.len(),
            forall|i: int| 0 <= i < r ==> !entry_is(#[trigger] self.instances@[i], wasm_method, code_hash),
            r < self.instances@.len() ==> entry_is(self.instances@[r as int], wasm_method, code_hash),
            r == self.instances@.len() ==> !cache_has(self.instances@, wasm_method, code_hash),
            r < self.instances@.len() ==> cache_has(self.instances@, wasm_method, code_hash)
                && cache_index(self.instances@, wasm_method, code_hash) == r,
    {
        let mut i: usize = 0;
        while i < self.instances.len() && !(self.instances[i].wasm_method == wasm_method
            && self.instances[i].code_hash == code_hash)
            invariant
                i <= self.instances@.len(),
                self.wf(),
                forall|j: int|
                    0 <= j < i ==> !entry_is(#[trigger] self.instances@[j], wasm_method, code_hash),
            decreases self.instances@.len() - i,
        {
            i = i + 1;
        }
        proof {
            if i < self.instances@.len() {
                lemma_cache_at(self.instances@, i as int);
            }
        }
        i
    }

    /// Store a freshly built outcome under a key not yet in the cache, and
    /// report it: the version record of a successful build, or the error,
    /// which is both cached and returned as `InvalidCode`.
    fn store_built(
        &mut self,
        idx: usize,
        wasm_method: WasmExecutionMethod,
        code_hash: CodeHash,
        built: Result<VersionedRuntime<R>, WasmError>,
    ) -> (r: Result<RuntimeVersion, Error>)
        requires
            old(self).wf(),
            !cache_has(old(self).instances@, wasm_method, code_hash),
            idx <= old(self).instances@.len(),
        ensures
            final(self).wf(),
            cache_others_same(old(self).instances@, final(self).instances@, wasm_method, code_hash),
            cache_has(final(self).instances@, wasm_method, code_hash),
            final(self).instances@.len() == old(self).instances@.len() + 1,
            final(self).instances@ == old(self).instances@.insert(
                idx as int,
                (CacheEntry { wasm_method, code_hash, result: built }),
            ),
            cache_result(final(self).instances@, wasm_method, code_hash) == built,
            (match built {
                Ok(vr) => r matches Ok(v) && v@ == vr.version@,
                Err(e) => r == Err::<RuntimeVersion, Error>(Error::InvalidCode(e)),
            }),
    {
        let ghost s0 = self.instances@;
        match built {
            Ok(vr) => {
                let version = clone_version(&vr.version);
                self.instances.insert(idx, CacheEntry { wasm_method, code_hash, result: Ok(vr) });
                proof {
                    lemma_cache_insert(
                        s0,
                        self.instances@,
                        idx as int,
                        CacheEntry { wasm_method, code_hash, result: built },
                    );
                }
                Ok(version)
            },
            Err(e) => {
                let report = clone_wasm_error(&e);
                self.instances.insert(idx, CacheEntry { wasm_method, code_hash, result: Err(e) });
                proof {
                    lemma_cache_insert(
                        s0,
                        self.instances@,
                        idx as int,
                        CacheEntry { wasm_method, code_hash, result: built },
                    );
                }
                Err(Error::InvalidCode(report))
            },
        }
    }

    /// Fetch the runtime for `(wasm_method, code_hash)` under the heap-page
    /// count `heap_pages`, building it from `:code` when absent: a recorded
    /// failure is re-surfaced as `InvalidCode` untouched; a cached instance
    /// whose heap configuration still applies is reused as it is, its version
    /// returned again; otherwise the instance is asked to apply the new count
    /// in place, and rebuilt if it cannot.  The result, success or failure,
    /// is what the cache now records under the key.
    pub fn fetch_resolved<E: Externalities>(
        &mut self,
        ext: &mut E,
        wasm_method: WasmExecutionMethod,
        code_hash: CodeHash,
        heap_pages: u64,
    ) -> (r: Result<RuntimeVersion, Error>) where R: WasmRuntime<E>
        requires
            old(self).wf(),
        ensures
            final(self).wf(),
            cache_others_same(old(self).instances@, final(self).instances@, wasm_method, code_hash),
            cache_has(final(self).instances@, wasm_method, code_hash),
            final(self).instances@.len() == old(self).instances@.len() + (if cache_has(
                old(self).instances@,
                wasm_method,
                code_hash,
            ) {
                0int
            } else {
                1int
            }),
            // what is returned is exactly what the cache now records
            (match r {
                Ok(v) => cache_result(final(self).instances@, wasm_method, code_hash) matches Ok(
                    vr,
                ) && v@ == vr.version@ && vr.runtime.spec_heap_pages() == heap_pages,
                Err(e) => e matches Error::InvalidCode(we) && cache_result(
                    final(self).instances@,
                    wasm_method,
                    code_hash,
                ) == Err::<VersionedRuntime<R>, WasmError>(we),
            }),
            // a recorded failure is re-surfaced untouched
            (cache_has(old(self).instances@, wasm_method, code_hash) && cache_result(
                old(self).instances@,
                wasm_method,
                code_hash,
            ) is Err ==> final(self).instances@ == old(self).instances@ && r == Err::<
                RuntimeVersion,
                Error,
            >(Error::InvalidCode(
                cache_result(old(self).instances@, wasm_method, code_hash)->Err_0,
            ))),
            // fetching again under an unchanged heap configuration reuses the
            // cached instance and returns the same version record
            (match cache_result(old(self).instances@, wasm_method, code_hash) {
                Ok(vr0) => (cache_has(old(self).instances@, wasm_method, code_hash)
                    && vr0.runtime.spec_heap_pages() == heap_pages) ==> (match (
                    r,
                    cache_result(final(self).instances@, wasm_method, code_hash),
                ) {
                    (Ok(v), Ok(vr1)) => v@ == vr0.version@ && vr1.version == vr0.version,
                    _ => false,
                }),
                Err(_) => true,
            }),
    {
        let ghost s0 = self.instances@;
        let idx = self.find_entry(wasm_method, code_hash);
        if idx < self.instances.len() {
            proof {
                lemma_cache_at(s0, idx as int);
            }
            let entry = self.instances.remove(idx);
            proof {
                lemma_cache_remove(s0, self.instances@, idx as int);
            }
            match entry.result {
                Err(e) => {
                    let report = clone_wasm_error(&e);
                    self.instances.insert(
                        idx,
                        CacheEntry { wasm_method, code_hash, result: Err(e) },
                    );
                    proof {
                        assert(self.instances@ =~= s0);
                    }
                    Err(Error::InvalidCode(report))
                },
                Ok(mut vr) => {
                    if vr.runtime.update_heap_pages(heap_pages) {
                        let version = clone_version(&vr.version);
                        self.instances.insert(
                            idx,
                            CacheEntry { wasm_method, code_hash, result: Ok(vr) },
                        );
                        proof {
                            let s1 = self.instances@;
                            let e = s1[idx as int];
                            assert(s1 =~= s0.update(idx as int, e));
                            lemma_cache_update(s0, s1, idx as int, e);
                        }
                        Ok(version)
                    } else {
                        // the heap configuration changed and the instance
                        // cannot apply it in place: rebuild, replacing the
                        // cache entry
                        let built = create_versioned_wasm_runtime::<E, R>(
                            ext,
                            wasm_method,
                            heap_pages,
                        );
                        let result = self.store_built(idx, wasm_method, code_hash, built);
                        proof {
                            let s1 = self.instances@;
                            let e = s1[idx as int];
                            assert(s1 =~= s0.update(idx as int, e));
                            lemma_cache_update(s0, s1, idx as int, e);
                        }
                        result
                    }
                },
            }
        } else {
            // no instance found in the cache: build one now
            let built = create_versioned_wasm_runtime::<E, R>(ext, wasm_method, heap_pages);
            self.store_built(idx, wasm_method, code_hash, built)
        }
    }

    /// Fetch the runtime for the code currently in storage: its hash is read
    /// from `:code`, the heap-page count from `:heappages`, with
    /// `default_heap_pages` standing in when the value is absent or
    /// undecodable.  Returns the version record and the code hash, or
    /// `InvalidCode` when the hash is missing or the build failed.
    pub fn fetch_runtime<E: Externalities>(
        &mut self,
        ext: &mut E,
        wasm_method: WasmExecutionMethod,
        default_heap_pages: u64,
    ) -> (r: Result<(RuntimeVersion, CodeHash), Error>) where R: WasmRuntime<E>
        requires
            old(self).wf(),
        ensures
            final(self).wf(),
            // the cache only grows; what else holds depends on what the
            // storage view and the engine answered, which `fetch_resolved`
            // pins down once the hash and heap count are in hand
            final(self).instances@.len() >= old(self).instances@.len(),
            (match r {
                Ok((v, h)) => cache_has(final(self).instances@, wasm_method, h) && (cache_result(
                    final(self).instances@,
                    wasm_method,
                    h,
                ) matches Ok(vr) && v@ == vr.version@),
                Err(e) => e is InvalidCode,
            }),
    {
        let key = code_key();
        let code_hash = match ext.original_storage_hash(key.as_slice()) {
            Some(h) => h,
            None => {
                return Err(Error::InvalidCode(WasmError::CodeNotFound));
            },
        };
        let hp_key = heap_pages_key();
        let heap_pages = match ext.storage(hp_key.as_slice()) {
            Some(pages) => match crate::scale::decode_u64_le(pages.as_slice()) {
                Some(v) => v,
                None => default_heap_pages,
            },
            None => default_heap_pages,
        };
        match self.fetch_resolved(ext, wasm_method, code_hash, heap_pages) {
            Ok(version) => Ok((version, code_hash)),
            Err(e) => Err(e),
        }
    }

    /// Mutable access to the cache slot keyed `(wasm_method, code_hash)`,
    /// through which the caller drives the instance.
    pub fn entry_mut(&mut self, wasm_method: WasmExecutionMethod, code_hash: CodeHash) -> (r: &mut
        CacheEntry<R>)
        requires
            old(self).wf(),
            cache_has(old(self).instances@, wasm_method, code_hash),
        ensures
            *r == old(self).instances@[cache_index(old(self).instances@, wasm_method, code_hash)],
            final(self).instances@ == old(self).instances@.update(
                cache_index(old(self).instances@, wasm_method, code_hash),
                *final(r),
            ),
    {
        let idx = self.find_entry(wasm_method, code_hash);
        proof {
            if idx >= self.instances@.len() {
                let j = choose|j: int|
                    0 <= j < self.instances@.len() && entry_is(
                        #[trigger] self.instances@[j],
                        wasm_method,
                        code_hash,
                    );
                assert(false);
            }
        }
        &mut self.instances[idx]
    }

    /// Invalidate the runtime for the given `wasm_method` and `code_hash`:
    /// the entry is removed unconditionally, and the next fetch rebuilds.
    /// Meant for after a panic crossed the guest boundary, which may have
    /// left the instance poisoned.
    pub fn invalidate_runtime(&mut self, wasm_method: WasmExecutionMethod, code_hash: CodeHash)
        requires
            old(self).wf(),
        ensures
            final(self).wf(),
            !cache_has(final(self).instances@, wasm_method, code_hash),
            cache_others_same(old(self).instances@, final(self).instances@, wasm_method, code_hash),
            final(self).instances@.len() == old(self).instances@.len() - (if cache_has(
                old(self).instances@,
                wasm_method,
                code_hash,
            ) {
                1int
            } else {
                0int
            }),
    {
        let ghost s0 = self.instances@;
        let idx = self.find_entry(wasm_method, code_hash);
        if idx < self.instances.len() {
            proof {
                lemma_cache_at(s0, idx as int);
            }
            self.instances.remove(idx);
            proof {
                lemma_cache_remove(s0, self.instances@, idx as int);
            }
        } else {
            proof {
                assert(!cache_has(s0, wasm_method, code_hash));
            }
        }
    }
}

/// Load the `:code` bytes from storage, build an instance of them, and probe
/// its version by calling `Core_version` with an empty argument under the
/// panic-safe boundary.  A missing code value, a failed build, an unwound or
/// failed probe, or an undecodable version record each end in the
/// corresponding error.
fn create_versioned_wasm_runtime<E: Externalities, R: WasmRuntime<E>>(
    ext: &mut E,
    wasm_method: WasmExecutionMethod,
    heap_pages: u64,
) -> (r: Result<VersionedRuntime<R>, WasmError>)
    ensures
        r matches Ok(vr) ==> vr.runtime.spec_heap_pages() == heap_pages,
{
    let key = code_key();
    let code = match ext.original_storage(key.as_slice()) {
        Some(c) => c,
        None => {
            return Err(WasmError::CodeNotFound);
        },
    };
    let mut runtime: R = match create_wasm_runtime_with_code::<E, R>(
        wasm_method,
        heap_pages,
        code.as_slice(),
    ) {
        Ok(rt) => rt,
        Err(e) => {
            return Err(e);
        },
    };
    // call into the guest to determine the runtime version
    let empty: Vec<u8> = Vec::new();
    let version_bytes = match runtime.call(ext, "Core_version", empty.as_slice()) {
        Ok(bytes) => bytes,
        Err(GuestCallError::Panicked) => {
            return Err(WasmError::Instantiation(InstantiationError::VersionProbePanicked));
        },
        Err(GuestCallError::Failed(m)) => {
            return Err(WasmError::Instantiation(InstantiationError::VersionCallFailed(m)));
        },
    };
    let version = match decode_runtime_version(&version_bytes) {
        Some(v) => v,
        None => {
            return Err(WasmError::Instantiation(InstantiationError::VersionDecodeFailed));
        },
    };
    Ok(VersionedRuntime { runtime, version })
}

} // verus!
