use nodecore::scale;
use nodecore::wasm_runtime::{
    ApiVersion, CodeHash, Error, Externalities, GuestCallError, InstantiationError,
    RuntimeVersion, RuntimesCache, WasmError, WasmExecutionMethod, WasmRuntime,
    decode_runtime_version,
};

// -- a storage view backed by in-memory values ------------------------------

struct MockExt {
    code: Option<Vec<u8>>,
    code_hash: Option<CodeHash>,
    heap_pages: Option<Vec<u8>>,
}

impl Externalities for MockExt {
    fn original_storage(&self, key: &[u8]) -> Option<Vec<u8>> {
        if key == b":code" { self.code.clone() } else { None }
    }

    fn original_storage_hash(&self, key: &[u8]) -> Option<CodeHash> {
        if key == b":code" { self.code_hash } else { None }
    }

    fn storage(&self, key: &[u8]) -> Option<Vec<u8>> {
        if key == b":heappages" { self.heap_pages.clone() } else { None }
    }
}

// -- a mock engine whose behaviour the first code byte selects --------------
//
//   0: builds, applies heap updates in place, probe returns code[1..]
//   1: builds, refuses heap updates, probe returns code[1..]
//   2: refuses to build
//   3: probe unwinds (caught by the boundary)
//   4: probe reports an execution error
//   6: refuses heap updates; a rebuild with a different count fails
//   7: reports a missing memory export

struct MockRuntime {
    mode: u8,
    payload: Vec<u8>,
    heap_pages: u64,
    scratch: u64,
}

impl WasmRuntime<MockExt> for MockRuntime {
    fn spec_heap_pages(&self) -> u64 {
        self.heap_pages
    }

    fn create_instance(
        _wasm_method: WasmExecutionMethod,
        code: &[u8],
        heap_pages: u64,
    ) -> Result<Self, WasmError> {
        let mode = code[0];
        if mode == 2 {
            return Err(WasmError::Instantiation(InstantiationError::Engine(String::from(
                "mock engine refused the module",
            ))));
        }
        if mode == 7 {
            return Err(WasmError::InvalidMemoryReference);
        }
        if mode == 6 && heap_pages != code[1] as u64 {
            return Err(WasmError::Instantiation(InstantiationError::Engine(String::from(
                "mock engine refused the heap size",
            ))));
        }
        let payload_from = if mode == 6 { 2 } else { 1 };
        Ok(MockRuntime { mode, payload: code[payload_from..].to_vec(), heap_pages, scratch: 0 })
    }

    fn update_heap_pages(&mut self, heap_pages: u64) -> bool {
        if heap_pages == self.heap_pages {
            return true;
        }
        if self.mode == 1 || self.mode == 6 {
            return false;
        }
        self.heap_pages = heap_pages;
        true
    }

    fn call(
        &mut self,
        _ext: &mut MockExt,
        method: &str,
        _data: &[u8],
    ) -> Result<Vec<u8>, GuestCallError> {
        assert_eq!(method, "Core_version");
        match self.mode {
            3 => Err(GuestCallError::Panicked),
            4 => Err(GuestCallError::Failed(String::from("mock trap"))),
            _ => Ok(self.payload.clone()),
        }
    }
}

fn hash(n: u64) -> CodeHash {
    CodeHash { w0: n, w1: 0, w2: 0, w3: 0 }
}

/// A well-formed version record: names "test"/"x", versions 1/2/3, one api.
fn version_bytes() -> Vec<u8> {
    let mut v = vec![
        16, b't', b'e', b's', b't', // spec_name, compact length 4
        4, b'x', // impl_name, compact length 1
        1, 0, 0, 0, // authoring_version
        2, 0, 0, 0, // spec_version
        3, 0, 0, 0, // impl_version
        4, // one api entry
    ];
    v.extend_from_slice(&[1, 2, 3, 4, 5, 6, 7, 8]); // api id
    v.extend_from_slice(&[9, 0, 0, 0]); // api version
    v
}

fn expected_version() -> RuntimeVersion {
    RuntimeVersion {
        spec_name: b"test".to_vec(),
        impl_name: b"x".to_vec(),
        authoring_version: 1,
        spec_version: 2,
        impl_version: 3,
        apis: vec![ApiVersion { id: vec![1, 2, 3, 4, 5, 6, 7, 8], version: 9 }],
    }
}

fn code_with_mode(mode: u8) -> Vec<u8> {
    let mut v = vec![mode];
    v.extend_from_slice(&version_bytes());
    v
}

fn ext_with_mode(mode: u8) -> MockExt {
    MockExt { code: Some(code_with_mode(mode)), code_hash: Some(hash(1)), heap_pages: None }
}

fn le8(v: u64) -> Vec<u8> {
    v.to_le_bytes().to_vec()
}

// -- decoding ---------------------------------------------------------------

#[test]
fn decode_version_record() {
    let v = decode_runtime_version(&version_bytes()).unwrap();
    assert_eq!(v, expected_version());
    // trailing bytes are ignored
    let mut longer = version_bytes();
    longer.push(99);
    assert_eq!(decode_runtime_version(&longer).unwrap(), expected_version());
    // a truncated record does not decode
    let mut short = version_bytes();
    short.pop();
    assert!(decode_runtime_version(&short).is_none());
    assert!(decode_runtime_version(&vec![]).is_none());
}

#[test]
fn decode_u64_le_reads_eight_bytes() {
    assert_eq!(scale::decode_u64_le(&[1, 0, 0, 0, 0, 0, 0, 0]), Some(1));
    assert_eq!(scale::decode_u64_le(&[0x40, 0x42, 0x0f, 0, 0, 0, 0, 0]), Some(1_000_000));
    assert_eq!(scale::decode_u64_le(&[255; 8]), Some(u64::MAX));
    assert_eq!(scale::decode_u64_le(&[1, 0, 0, 0, 0, 0, 0]), None);
    // extra bytes beyond the eighth are ignored
    assert_eq!(scale::decode_u64_le(&[2, 0, 0, 0, 0, 0, 0, 0, 77]), Some(2));
}

#[test]
fn decode_compact_lengths() {
    // single byte: value shifted left by two
    assert_eq!(scale::decode_compact_u32(&vec![16], 0), Some((4, 1)));
    // two bytes
    assert_eq!(scale::decode_compact_u32(&vec![0x01, 0x01], 0), Some((64, 2)));
    // four bytes
    assert_eq!(scale::decode_compact_u32(&vec![0x02, 0x00, 0x01, 0x00], 0), Some((16384, 4)));
    // big-integer mode with a four-byte payload
    assert_eq!(
        scale::decode_compact_u32(&vec![0x03, 0x00, 0x00, 0x00, 0x40], 0),
        Some((0x40000000, 5))
    );
    // out of input
    assert_eq!(scale::decode_compact_u32(&vec![0x01], 0), None);
    assert_eq!(scale::decode_compact_u32(&vec![], 0), None);
}

// -- the cache --------------------------------------------------------------

#[test]
fn fetch_builds_once_and_reuses() {
    let mut ext = ext_with_mode(0);
    let mut cache: RuntimesCache<MockRuntime> = RuntimesCache::new();
    let (v1, h1) = cache.fetch_runtime(&mut ext, WasmExecutionMethod::Interpreted, 5).unwrap();
    assert_eq!(v1, expected_version());
    assert_eq!(h1, hash(1));
    assert_eq!(cache.instances.len(), 1);

    // mark the live instance, then fetch again with unchanged inputs
    cache.entry_mut(WasmExecutionMethod::Interpreted, hash(1)).result.as_mut().unwrap().runtime.scratch = 42;
    let (v2, h2) = cache.fetch_runtime(&mut ext, WasmExecutionMethod::Interpreted, 5).unwrap();
    assert_eq!(v2, expected_version());
    assert_eq!(h2, hash(1));
    assert_eq!(cache.instances.len(), 1);
    // the same underlying instance answered: the mark is still there
    let entry = cache.entry_mut(WasmExecutionMethod::Interpreted, hash(1));
    assert_eq!(entry.result.as_mut().unwrap().runtime.scratch, 42);
}

#[test]
fn invalidate_forces_a_fresh_instance() {
    let mut ext = ext_with_mode(0);
    let mut cache: RuntimesCache<MockRuntime> = RuntimesCache::new();
    cache.fetch_runtime(&mut ext, WasmExecutionMethod::Interpreted, 5).unwrap();
    cache.entry_mut(WasmExecutionMethod::Interpreted, hash(1)).result.as_mut().unwrap().runtime.scratch = 42;

    cache.invalidate_runtime(WasmExecutionMethod::Interpreted, hash(1));
    assert_eq!(cache.instances.len(), 0);

    cache.fetch_runtime(&mut ext, WasmExecutionMethod::Interpreted, 5).unwrap();
    let entry = cache.entry_mut(WasmExecutionMethod::Interpreted, hash(1));
    // a fresh instance: the mark of the old one is gone
    assert_eq!(entry.result.as_mut().unwrap().runtime.scratch, 0);
}

#[test]
fn heap_pages_update_in_place_keeps_instance() {
    let mut ext = ext_with_mode(0);
    let mut cache: RuntimesCache<MockRuntime> = RuntimesCache::new();
    cache.fetch_runtime(&mut ext, WasmExecutionMethod::Interpreted, 5).unwrap();
    cache.entry_mut(WasmExecutionMethod::Interpreted, hash(1)).result.as_mut().unwrap().runtime.scratch = 42;

    // governance raises :heappages; the engine applies it in place
    ext.heap_pages = Some(le8(9));
    let (v, _) = cache.fetch_runtime(&mut ext, WasmExecutionMethod::Interpreted, 5).unwrap();
    assert_eq!(v, expected_version());
    let entry = cache.entry_mut(WasmExecutionMethod::Interpreted, hash(1));
    let vr = entry.result.as_mut().unwrap();
    assert_eq!(vr.runtime.scratch, 42);
    assert_eq!(vr.runtime.heap_pages, 9);
}

#[test]
fn heap_pages_change_rebuilds_when_refused() {
    let mut ext = ext_with_mode(1);
    let mut cache: RuntimesCache<MockRuntime> = RuntimesCache::new();
    cache.fetch_runtime(&mut ext, WasmExecutionMethod::Interpreted, 5).unwrap();
    cache.entry_mut(WasmExecutionMethod::Interpreted, hash(1)).result.as_mut().unwrap().runtime.scratch = 42;

    // the engine cannot apply the change in place: a new instance is built
    ext.heap_pages = Some(le8(9));
    let (v, _) = cache.fetch_runtime(&mut ext, WasmExecutionMethod::Interpreted, 5).unwrap();
    assert_eq!(v, expected_version());
    let entry = cache.entry_mut(WasmExecutionMethod::Interpreted, hash(1));
    let vr = entry.result.as_mut().unwrap();
    assert_eq!(vr.runtime.scratch, 0);
    assert_eq!(vr.runtime.heap_pages, 9);
}

#[test]
fn failed_rebuild_surfaces_as_invalid_code() {
    // mode 6 builds only with the heap count its second byte names
    let mut code = vec![6, 5];
    code.extend_from_slice(&version_bytes());
    let mut ext = MockExt { code: Some(code), code_hash: Some(hash(1)), heap_pages: None };
    let mut cache: RuntimesCache<MockRuntime> = RuntimesCache::new();
    cache.fetch_runtime(&mut ext, WasmExecutionMethod::Interpreted, 5).unwrap();

    ext.heap_pages = Some(le8(9));
    let err = cache.fetch_runtime(&mut ext, WasmExecutionMethod::Interpreted, 5).unwrap_err();
    assert_eq!(
        err,
        Error::InvalidCode(WasmError::Instantiation(InstantiationError::Engine(String::from(
            "mock engine refused the heap size"
        ))))
    );
}

#[test]
fn missing_code_hash_is_invalid_code() {
    let mut ext = MockExt { code: None, code_hash: None, heap_pages: None };
    let mut cache: RuntimesCache<MockRuntime> = RuntimesCache::new();
    let err = cache.fetch_runtime(&mut ext, WasmExecutionMethod::Interpreted, 5).unwrap_err();
    assert_eq!(err, Error::InvalidCode(WasmError::CodeNotFound));
    assert_eq!(cache.instances.len(), 0);
}

#[test]
fn missing_code_bytes_is_cached_code_not_found() {
    // the hash resolves but the code bytes are gone
    let mut ext = MockExt { code: None, code_hash: Some(hash(1)), heap_pages: None };
    let mut cache: RuntimesCache<MockRuntime> = RuntimesCache::new();
    let err = cache.fetch_runtime(&mut ext, WasmExecutionMethod::Interpreted, 5).unwrap_err();
    assert_eq!(err, Error::InvalidCode(WasmError::CodeNotFound));
    assert_eq!(cache.instances.len(), 1);
}

#[test]
fn missing_memory_export_is_reported() {
    let mut ext = ext_with_mode(7);
    let mut cache: RuntimesCache<MockRuntime> = RuntimesCache::new();
    let err = cache.fetch_runtime(&mut ext, WasmExecutionMethod::Interpreted, 5).unwrap_err();
    assert_eq!(err, Error::InvalidCode(WasmError::InvalidMemoryReference));
}

#[test]
fn probe_errors_are_instantiation_errors() {
    let mut ext = ext_with_mode(4);
    let mut cache: RuntimesCache<MockRuntime> = RuntimesCache::new();
    let err = cache.fetch_runtime(&mut ext, WasmExecutionMethod::Interpreted, 5).unwrap_err();
    assert_eq!(
        err,
        Error::InvalidCode(WasmError::Instantiation(InstantiationError::VersionCallFailed(
            String::from("mock trap")
        )))
    );

    // a probe that returns bytes that are no version record
    let mut ext2 = MockExt { code: Some(vec![0, 1, 2]), code_hash: Some(hash(2)), heap_pages: None };
    let err2 = cache.fetch_runtime(&mut ext2, WasmExecutionMethod::Interpreted, 5).unwrap_err();
    assert_eq!(
        err2,
        Error::InvalidCode(WasmError::Instantiation(InstantiationError::VersionDecodeFailed))
    );
}

#[test]
fn probe_panic_is_cached_and_cleared_by_invalidate() {
    let mut ext = ext_with_mode(3);
    let mut cache: RuntimesCache<MockRuntime> = RuntimesCache::new();
    let expected = Error::InvalidCode(WasmError::Instantiation(
        InstantiationError::VersionProbePanicked,
    ));
    let err = cache.fetch_runtime(&mut ext, WasmExecutionMethod::Interpreted, 5).unwrap_err();
    assert_eq!(err, expected);
    assert_eq!(cache.instances.len(), 1);

    // the failure is cached: fetching again re-surfaces it unchanged
    let err2 = cache.fetch_runtime(&mut ext, WasmExecutionMethod::Interpreted, 5).unwrap_err();
    assert_eq!(err2, expected);

    // invalidate, repair the code, and fetch successfully
    cache.invalidate_runtime(WasmExecutionMethod::Interpreted, hash(1));
    ext.code = Some(code_with_mode(0));
    let (v, _) = cache.fetch_runtime(&mut ext, WasmExecutionMethod::Interpreted, 5).unwrap();
    assert_eq!(v, expected_version());
}

#[test]
fn heap_pages_value_comes_from_storage() {
    let mut ext = ext_with_mode(0);
    ext.heap_pages = Some(le8(11));
    let mut cache: RuntimesCache<MockRuntime> = RuntimesCache::new();
    cache.fetch_runtime(&mut ext, WasmExecutionMethod::Interpreted, 5).unwrap();
    let entry = cache.entry_mut(WasmExecutionMethod::Interpreted, hash(1));
    assert_eq!(entry.result.as_mut().unwrap().runtime.heap_pages, 11);

    // an undecodable value falls back to the default
    let mut ext2 = ext_with_mode(0);
    ext2.code_hash = Some(hash(3));
    ext2.heap_pages = Some(vec![1, 2, 3]);
    cache.fetch_runtime(&mut ext2, WasmExecutionMethod::Interpreted, 5).unwrap();
    let entry2 = cache.entry_mut(WasmExecutionMethod::Interpreted, hash(3));
    assert_eq!(entry2.result.as_mut().unwrap().runtime.heap_pages, 5);
}

#[test]
fn methods_are_cached_separately() {
    let mut ext = ext_with_mode(0);
    let mut cache: RuntimesCache<MockRuntime> = RuntimesCache::new();
    cache.fetch_runtime(&mut ext, WasmExecutionMethod::Interpreted, 5).unwrap();
    cache.fetch_runtime(&mut ext, WasmExecutionMethod::Compiled, 5).unwrap();
    assert_eq!(cache.instances.len(), 2);
    cache.invalidate_runtime(WasmExecutionMethod::Interpreted, hash(1));
    assert_eq!(cache.instances.len(), 1);
    assert_eq!(cache.instances[0].wasm_method, WasmExecutionMethod::Compiled);
}
