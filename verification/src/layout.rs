//! Layout-detection models: the model table, the local model cache and the
//! steps that make sure a model is in it, model-variant details, engine
//! configuration and the places where the ONNX runtime library is looked for.
//!
//! Work on files and the network is done by the caller: the cache manager
//! says which step comes next and is told how each one went.
use vstd::prelude::*;
use sha2::{Digest, Sha256};
use crate::text::{push_str};

verus! {

// ---------------------------------------------------------------------------
// Detectron2 variants
// ---------------------------------------------------------------------------
/// Which output of a Detectron2 model holds the confidence scores.
#[derive(Debug, Clone, Copy, PartialEq, Eq, Structural)]
pub enum Detectron2Variant {
    /// Faster R-CNN: scores at output index 2.
    FasterRcnn,
    /// Mask R-CNN: scores at output index 3 (index 2 is masks).
    MaskRcnn,
}

impl Detectron2Variant {
    /// The index of the output that holds the scores.
    pub fn score_output_index(&self) -> (r: usize)
        ensures
            r == (match *self {
                Detectron2Variant::FasterRcnn => 2usize,
                Detectron2Variant::MaskRcnn => 3usize,
            }),
    {
        match self {
            Detectron2Variant::FasterRcnn => 2,
            Detectron2Variant::MaskRcnn => 3,
        }
    }
}

// ---------------------------------------------------------------------------
// Errors
// ---------------------------------------------------------------------------
/// Why a layout model could not be had.
#[derive(Debug)]
pub enum LayoutError {
    ModelDownload(String),
}

// ---------------------------------------------------------------------------
// Paths
// ---------------------------------------------------------------------------
/// `a` joined with `b` as Unix paths are: an absolute `b` replaces `a`,
/// otherwise `b` follows `a` after a `/` unless `a` is empty or ends with one.
pub open spec fn join_path(a: Seq<char>, b: Seq<char>) -> Seq<char> {
    if b.len() > 0 && b[0] == '/' {
        b
    } else if a.len() == 0 {
        b
    } else if a.last() == '/' {
        a + b
    } else {
        a + "/"@ + b
    }
}

/// Joins two paths.
pub fn join(a: &str, b: &str) -> (r: String)
    ensures
        r@ == join_path(a@, b@),
{
    let bv = crate::text::chars_of(b);
    let av = crate::text::chars_of(a);
    if bv.len() > 0 && bv[0] == '/' {
        return String::from_str(b);
    }
    let mut r = String::from_str(a);
    if av.len() > 0 && av[av.len() - 1] != '/' {
        push_str(&mut r, "/");
    }
    push_str(&mut r, b);
    r
}

// ---------------------------------------------------------------------------
// The model table
// ---------------------------------------------------------------------------
/// The model repository on the HuggingFace hub.
pub const HF_REPO_ID: &'static str = "Kreuzberg/layout-models";

/// Where a model comes from and where it is cached.
#[derive(Debug, Clone, Copy)]
pub struct ModelDefinition {
    pub model_type: &'static str,
    pub remote_filename: &'static str,
    pub local_filename: &'static str,
    /// Hex SHA-256 of the model file; empty when it is not checked.
    pub sha256_checksum: &'static str,
}

/// The known models: `yolo` and `rtdetr`, both cached as `model.onnx`, with
/// no checksum recorded.
pub open spec fn model_definition(model_type: Seq<char>) -> Option<(Seq<char>, Seq<char>, Seq<char>)> {
    if model_type == "yolo"@ {
        Some(("yolov10-doclaynet.onnx"@, "model.onnx"@, Seq::<char>::empty()))
    } else if model_type == "rtdetr"@ {
        Some(("rtdetr-v2-docling.onnx"@, "model.onnx"@, Seq::<char>::empty()))
    } else {
        None
    }
}

fn same_text(a: &str, b: &str) -> (r: bool)
    ensures
        r == (a@ == b@),
{
    let av = crate::text::chars_of(a);
    let bv = crate::text::chars_of(b);
    if av.len() != bv.len() {
        return false;
    }
    let mut i: usize = 0;
    while i < av.len()
        invariant
            i <= av.len() == bv.len(),
            av@ == a@,
            bv@ == b@,
            forall|k: int| 0 <= k < i ==> av@[k] == bv@[k],
        decreases av.len() - i,
    {
        if av[i] != bv[i] {
            return false;
        }
        i += 1;
    }
    assert(av@ =~= bv@);
    true
}

/// The definition of a model type.
pub fn find_model(model_type: &str) -> (r: Option<ModelDefinition>)
    ensures
        match r {
            Some(d) => model_definition(model_type@) == Some((d.remote_filename@, d.local_filename@, d.sha256_checksum@))
                && d.model_type@ == model_type@,
            None => model_definition(model_type@) is None,
        },
{
    proof {
        reveal_strlit("");
    }
    if same_text(model_type, "yolo") {
        Some(
            ModelDefinition {
                model_type: "yolo",
                remote_filename: "yolov10-doclaynet.onnx",
                local_filename: "model.onnx",
                sha256_checksum: "",
            },
        )
    } else if same_text(model_type, "rtdetr") {
        Some(
            ModelDefinition {
                model_type: "rtdetr",
                remote_filename: "rtdetr-v2-docling.onnx",
                local_filename: "model.onnx",
                sha256_checksum: "",
            },
        )
    } else {
        None
    }
}

// ---------------------------------------------------------------------------
// Checksums
// ---------------------------------------------------------------------------
/// What SHA-256 yields for the given bytes.
pub uninterp spec fn sha256_of(data: Seq<u8>) -> Seq<u8>;

/// `sha2::Sha256::digest`: the SHA-256 digest of the bytes, named
/// `sha256_of(data)`; a digest is 32 bytes long.
#[verifier::external_body]
fn sha256_digest(data: &Vec<u8>) -> (r: Vec<u8>)
    ensures
        r@ == sha256_of(data@),
        r@.len() == 32,
{
    Sha256::digest(data.as_slice()).to_vec()
}

/// The lower-case hex digit for `n < 16`.
pub open spec fn hex_digit(n: u8) -> char {
    if n < 10 {
        (48 + n) as char
    } else {
        (87 + n) as char
    }
}

/// Lower-case hex encoding, two digits per byte, high nibble first.
pub open spec fn hex_lower(bytes: Seq<u8>) -> Seq<char>
    decreases bytes.len(),
{
    if bytes.len() == 0 {
        Seq::empty()
    } else {
        hex_lower(bytes.drop_last()) + seq![hex_digit(bytes.last() / 16), hex_digit(bytes.last() % 16)]
    }
}

/// `hex::encode`: each byte as two lower-case hex digits, high nibble first.
#[verifier::external_body]
fn hex_encode(bytes: &Vec<u8>) -> (r: String)
    ensures
        r@ == hex_lower(bytes@),
{
    hex::encode(bytes)
}

/// The message of a checksum mismatch.
pub open spec fn mismatch_message(label: Seq<char>, expected: Seq<char>, got: Seq<char>) -> Seq<char> {
    "Checksum mismatch for "@ + label + ": expected "@ + expected + ", got "@ + got
}

/// `verify_checksum`: checks that the bytes hash to the expected hex SHA-256
/// (always passes when nothing is expected).
pub fn verify_checksum(bytes: &Vec<u8>, expected: &str, label: &str) -> (r: Result<(), LayoutError>)
    ensures
        expected@.len() == 0 ==> r is Ok,
        expected@.len() > 0 ==> match r {
            Ok(_) => hex_lower(sha256_of(bytes@)) == expected@,
            Err(LayoutError::ModelDownload(m)) => hex_lower(sha256_of(bytes@)) != expected@ && m@ == mismatch_message(
                label@,
                expected@,
                hex_lower(sha256_of(bytes@)),
            ),
        },
{
    if expected.is_empty() {
        return Ok(());
    }
    let digest = sha256_digest(bytes);
    let hash_hex = hex_encode(&digest);
    if !same_text(hash_hex.as_str(), expected) {
        let mut m = String::new();
        push_str(&mut m, "Checksum mismatch for ");
        push_str(&mut m, label);
        push_str(&mut m, ": expected ");
        push_str(&mut m, expected);
        push_str(&mut m, ", got ");
        push_str(&mut m, hash_hex.as_str());
        return Err(LayoutError::ModelDownload(m));
    }
    Ok(())
}

// ---------------------------------------------------------------------------
// The model cache
// ---------------------------------------------------------------------------
/// The default cache directory: `$KREUZBERG_CACHE_DIR/layout` when that
/// variable is set, else `.kreuzberg/layout` under the current directory (or
/// under `.` when that is unknown).
pub open spec fn default_cache_dir(env_dir: Option<Seq<char>>, current_dir: Option<Seq<char>>) -> Seq<char> {
    match env_dir {
        Some(e) => join_path(e, "layout"@),
        None => join_path(
            join_path(
                match current_dir {
                    Some(c) => c,
                    None => "."@,
                },
                ".kreuzberg"@,
            ),
            "layout"@,
        ),
    }
}

/// Manages where layout models are cached.
#[derive(Debug, Clone)]
pub struct LayoutModelManager {
    pub cache_dir: String,
}

/// What to do next to make sure a model is cached.
#[derive(Debug)]
pub enum ModelAction {
    /// Tell whether this file exists.
    CheckCached { file: String },
    /// Create this directory and its parents.
    CreateDir { dir: String },
    /// Download a file of a hub repository and tell where it was stored.
    Download { repo: String, filename: String },
    /// Read this file and hand over its bytes.
    ReadFile { path: String },
    /// Copy a file.
    Copy { from: String, to: String },
    /// Finished: the cached model file, or why it could not be had.
    Done(Result<String, LayoutError>),
}

/// Why a download failed.
#[derive(Debug)]
pub enum DownloadFailure {
    /// The hub client could not be set up.
    ApiInit(String),
    /// The file could not be fetched.
    Fetch(String),
}

/// How the last step went.
#[derive(Debug)]
pub enum ModelEvent {
    Cached(bool),
    DirCreated(Result<(), String>),
    Downloaded(Result<String, DownloadFailure>),
    FileRead(Result<Vec<u8>, String>),
    Copied(Result<(), String>),
}

/// A model being made sure of.
#[derive(Debug)]
pub struct EnsureModel {
    pub model_type: String,
    pub definition: ModelDefinition,
    pub dir: String,
    pub file: String,
    /// Where the hub stored the downloaded file, once downloaded.
    pub downloaded: Option<String>,
}

/// `d` is a ready-to-run model process for `model_type` in cache `cache`.
pub open spec fn started(m: EnsureModel, cache: Seq<char>, model_type: Seq<char>) -> bool {
    &&& m.model_type@ == model_type
    &&& model_definition(model_type) == Some(
        (m.definition.remote_filename@, m.definition.local_filename@, m.definition.sha256_checksum@),
    )
    &&& m.dir@ == join_path(cache, model_type)
    &&& m.file@ == join_path(m.dir@, m.definition.local_filename@)
    &&& m.downloaded is None
}

/// The messages of the failures the process reports.
pub open spec fn dir_failure(dir: Seq<char>, e: Seq<char>) -> Seq<char> {
    "Failed to create cache dir "@ + dir + ": "@ + e
}

pub open spec fn download_failure(filename: Seq<char>, f: DownloadFailure) -> Seq<char> {
    match f {
        DownloadFailure::ApiInit(e) => "Failed to initialize HF Hub API: "@ + e@,
        DownloadFailure::Fetch(e) => "Failed to download '"@ + filename + "' from "@ + HF_REPO_ID@ + ": "@ + e@,
    }
}

pub open spec fn read_failure(e: Seq<char>) -> Seq<char> {
    "Failed to read file for checksum: "@ + e
}

pub open spec fn copy_failure(file: Seq<char>, e: Seq<char>) -> Seq<char> {
    "Failed to copy model to "@ + file + ": "@ + e
}

fn message(parts: &Vec<&str>) -> (r: String)
    ensures
        r@ == concat_views(parts@),
{
    let mut r = String::new();
    let mut i: usize = 0;
    assert(parts@.take(0) =~= Seq::<&str>::empty());
    while i < parts.len()
        invariant
            i <= parts@.len(),
            r@ == concat_views(parts@.take(i as int)),
        decreases parts.len() - i,
    {
        assert(parts@.take(i + 1).drop_last() =~= parts@.take(i as int));
        push_str(&mut r, parts[i]);
        i += 1;
    }
    assert(parts@.take(parts@.len() as int) =~= parts@);
    r
}

/// The concatenation of the pieces.
pub open spec fn concat_views(parts: Seq<&str>) -> Seq<char>
    decreases parts.len(),
{
    if parts.len() == 0 {
        Seq::empty()
    } else {
        concat_views(parts.drop_last()) + parts.last()@
    }
}

impl LayoutModelManager {
    /// A manager caching under `cache_dir`, or under the default directory
    /// made from the cache variable and the current directory.
    pub fn new(cache_dir: Option<String>, env_cache_dir: Option<String>, current_dir: Option<String>) -> (m: Self)
        ensures
            m.cache_dir@ == match cache_dir {
                Some(c) => c@,
                None => default_cache_dir(
                    match env_cache_dir {
                        Some(e) => Some(e@),
                        None => None,
                    },
                    match current_dir {
                        Some(c) => Some(c@),
                        None => None,
                    },
                ),
            },
    {
        let dir = match cache_dir {
            Some(c) => c,
            None => match env_cache_dir {
                Some(e) => join(e.as_str(), "layout"),
                None => {
                    let base = match current_dir {
                        Some(c) => c,
                        None => String::from_str("."),
                    };
                    let k = join(base.as_str(), ".kreuzberg");
                    join(k.as_str(), "layout")
                },
            },
        };
        LayoutModelManager { cache_dir: dir }
    }

    /// The cache directory.
    pub fn cache_dir(&self) -> (r: &str)
        ensures
            r@ == self.cache_dir@,
    {
        self.cache_dir.as_str()
    }

    /// Where the YOLO model is cached.
    pub fn yolo_model_path(&self) -> (r: String)
        ensures
            r@ == join_path(join_path(self.cache_dir@, "yolo"@), "model.onnx"@),
    {
        let d = join(self.cache_dir.as_str(), "yolo");
        join(d.as_str(), "model.onnx")
    }

    /// Where the RT-DETR model is cached.
    pub fn rtdetr_model_path(&self) -> (r: String)
        ensures
            r@ == join_path(join_path(self.cache_dir@, "rtdetr"@), "model.onnx"@),
    {
        let d = join(self.cache_dir.as_str(), "rtdetr");
        join(d.as_str(), "model.onnx")
    }

    /// Starts making sure a model is cached: the first step is to look for
    /// its file.  Unknown model types fail.
    pub fn ensure_model(&self, model_type: &str) -> (r: Result<(EnsureModel, ModelAction), LayoutError>)
        ensures
            match r {
                Ok((m, a)) => started(m, self.cache_dir@, model_type@) && (a matches ModelAction::CheckCached { file }
                    && file@ == m.file@),
                Err(LayoutError::ModelDownload(msg)) => model_definition(model_type@) is None && msg@
                    == "Unknown model type: "@ + model_type@,
            },
    {
        match find_model(model_type) {
            None => {
                let msg = message(&vec!["Unknown model type: ", model_type]);
                proof {
                    reveal_with_fuel(concat_views, 3);
                }
                Err(LayoutError::ModelDownload(msg))
            },
            Some(d) => {
                let dir = join(self.cache_dir.as_str(), model_type);
                let file = join(dir.as_str(), d.local_filename);
                let file2 = join(dir.as_str(), d.local_filename);
                let m = EnsureModel {
                    model_type: String::from_str(model_type),
                    definition: d,
                    dir,
                    file,
                    downloaded: None,
                };
                Ok((m, ModelAction::CheckCached { file: file2 }))
            },
        }
    }

    /// `ensure_yolo_model`: starts making sure the YOLO model is cached.
    pub fn ensure_yolo_model(&self) -> (r: Result<(EnsureModel, ModelAction), LayoutError>)
        ensures
            r matches Ok((m, a)) && started(m, self.cache_dir@, "yolo"@) && (a matches ModelAction::CheckCached {
                file,
            } && file@ == m.file@),
    {
        proof {
            reveal_strlit("yolo");
        }
        self.ensure_model("yolo")
    }

    /// `ensure_rtdetr_model`: starts making sure the RT-DETR model is cached.
    pub fn ensure_rtdetr_model(&self) -> (r: Result<(EnsureModel, ModelAction), LayoutError>)
        ensures
            r matches Ok((m, a)) && started(m, self.cache_dir@, "rtdetr"@) && (a matches ModelAction::CheckCached {
                file,
            } && file@ == m.file@),
    {
        proof {
            reveal_strlit("rtdetr");
        }
        self.ensure_model("rtdetr")
    }
}

/// One step of the process: from state `o`, event `ev` leads to state `n`
/// and action `a`.  A cached file is used as it is; otherwise the model
/// directory is created, the model downloaded, its checksum checked when one is
/// recorded, and the download copied into the cache.
pub open spec fn step_ok(o: EnsureModel, ev: ModelEvent, n: EnsureModel, a: ModelAction) -> bool {
    &&& n.model_type == o.model_type
    &&& n.definition == o.definition
    &&& n.dir == o.dir
    &&& n.file == o.file
    &&& (a matches ModelAction::Done(Ok(f)) ==> f@ == o.file@)
    &&& (ev matches ModelEvent::Cached(c) ==> if c {
        a matches ModelAction::Done(Ok(f)) && f@ == o.file@
    } else {
        a matches ModelAction::CreateDir { dir } && dir@ == o.dir@
    })
    &&& (ev matches ModelEvent::DirCreated(Ok(_)) ==> a matches ModelAction::Download { repo, filename } && repo@
        == HF_REPO_ID@ && filename@ == o.definition.remote_filename@)
    &&& (ev matches ModelEvent::DirCreated(Err(e)) ==> a matches ModelAction::Done(Err(LayoutError::ModelDownload(m)))
        && m@ == dir_failure(o.dir@, e@))
    &&& (ev matches ModelEvent::Downloaded(Ok(p)) ==> n.downloaded == Some(p) && if o.definition.sha256_checksum@.len()
        > 0 {
        a matches ModelAction::ReadFile { path } && path@ == p@
    } else {
        a matches ModelAction::Copy { from, to } && from@ == p@ && to@ == o.file@
    })
    &&& (ev matches ModelEvent::Downloaded(Err(f)) ==> a matches ModelAction::Done(Err(LayoutError::ModelDownload(m)))
        && m@ == download_failure(o.definition.remote_filename@, f))
    &&& (ev matches ModelEvent::FileRead(Ok(bytes)) ==> match o.downloaded {
        Some(p) => if o.definition.sha256_checksum@.len() == 0 || hex_lower(sha256_of(bytes@))
            == o.definition.sha256_checksum@ {
            a matches ModelAction::Copy { from, to } && from@ == p@ && to@ == o.file@
        } else {
            a matches ModelAction::Done(Err(LayoutError::ModelDownload(m))) && m@ == mismatch_message(
                o.model_type@,
                o.definition.sha256_checksum@,
                hex_lower(sha256_of(bytes@)),
            )
        },
        None => a matches ModelAction::Done(Err(LayoutError::ModelDownload(m))) && m@
            == "No downloaded file to check"@,
    })
    &&& (ev matches ModelEvent::FileRead(Err(e)) ==> a matches ModelAction::Done(Err(LayoutError::ModelDownload(m)))
        && m@ == read_failure(e@))
    &&& (ev matches ModelEvent::Copied(Ok(_)) ==> a matches ModelAction::Done(Ok(f)) && f@ == o.file@)
    &&& (ev matches ModelEvent::Copied(Err(e)) ==> a matches ModelAction::Done(Err(LayoutError::ModelDownload(m)))
        && m@ == copy_failure(o.file@, e@))
}

/// The file name under which a model type is cached.
pub open spec fn local_name(model_type: Seq<char>) -> Seq<char> {
    match model_definition(model_type) {
        Some((_, local, _)) => local,
        None => Seq::empty(),
    }
}

/// A run of the process: its states, the events it was given and the actions
/// it took, each step as `step_ok` says.
pub open spec fn model_run(ms: Seq<EnsureModel>, evs: Seq<ModelEvent>, acts: Seq<ModelAction>) -> bool {
    &&& ms.len() == evs.len() + 1
    &&& acts.len() == evs.len()
    &&& forall|k: int| 0 <= k < evs.len() ==> step_ok(ms[k], #[trigger] evs[k], ms[k + 1], acts[k])
}

proof fn lemma_run_keeps_file(ms: Seq<EnsureModel>, evs: Seq<ModelEvent>, acts: Seq<ModelAction>, k: int)
    requires
        model_run(ms, evs, acts),
        0 <= k < ms.len(),
    ensures
        ms[k].file == ms[0].file,
    decreases k,
{
    if k > 0 {
        lemma_run_keeps_file(ms, evs, acts, k - 1);
        assert(step_ok(ms[k - 1], evs[k - 1], ms[k], acts[k - 1]));
    }
}

/// Making sure of a model, over a whole run: every successful end hands back
/// the model's file in the cache (`<cache>/<model type>/<local file name>`);
/// a file found in the cache at the first look is used at once, with no
/// directory made and nothing downloaded; and a download is only ever asked
/// for right after the model directory was made.
pub proof fn model_run_ends_at_cached_file(
    cache: Seq<char>,
    model_type: Seq<char>,
    ms: Seq<EnsureModel>,
    evs: Seq<ModelEvent>,
    acts: Seq<ModelAction>,
)
    requires
        ms.len() > 0,
        started(ms[0], cache, model_type),
        model_run(ms, evs, acts),
    ensures
        forall|k: int|
            0 <= k < acts.len() ==> ((#[trigger] acts[k]) matches ModelAction::Done(Ok(f)) ==> f@ == join_path(
                join_path(cache, model_type),
                local_name(model_type),
            )),
        (evs.len() > 0 && evs[0] == ModelEvent::Cached(true)) ==> (acts[0] matches ModelAction::Done(Ok(f)) && f@
            == ms[0].file@),
        forall|k: int| 0 <= k < acts.len() ==> ((#[trigger] acts[k]) is Download ==> evs[k] matches ModelEvent::DirCreated(Ok(_))),
{
    assert forall|k: int| 0 <= k < acts.len() implies ((#[trigger] acts[k]) matches ModelAction::Done(Ok(f)) ==> f@
        == join_path(join_path(cache, model_type), local_name(model_type))) by {
        lemma_run_keeps_file(ms, evs, acts, k);
        assert(step_ok(ms[k], evs[k], ms[k + 1], acts[k]));
    }
    if evs.len() > 0 {
        assert(step_ok(ms[0], evs[0], ms[1], acts[0]));
    }
    assert forall|k: int| 0 <= k < acts.len() implies ((#[trigger] acts[k]) is Download ==> evs[k] matches ModelEvent::DirCreated(Ok(_))) by {
        assert(step_ok(ms[k], evs[k], ms[k + 1], acts[k]));
    }
}

/// The two layout models are cached in different files.
pub proof fn model_files_differ(cache: Seq<char>)
    ensures
        join_path(join_path(cache, "rtdetr"@), "model.onnx"@) != join_path(join_path(cache, "yolo"@), "model.onnx"@),
{
    reveal_strlit("rtdetr");
    reveal_strlit("yolo");
    reveal_strlit("model.onnx");
    reveal_strlit("/");
    let a = join_path(cache, "rtdetr"@);
    let b = join_path(cache, "yolo"@);
    assert(a.len() == b.len() + 2);
    assert(a.len() > 0 && b.len() > 0);
    assert(a.last() == 'r' && b.last() == 'o');
    assert(join_path(a, "model.onnx"@).len() == join_path(b, "model.onnx"@).len() + 2);
}

impl EnsureModel {
    /// The next step after `ev`: a cached file is used as it is; otherwise the
    /// model directory is created, the model downloaded, its checksum checked
    /// when one is recorded, and the download copied into the cache.
    pub fn step(&mut self, ev: ModelEvent) -> (a: ModelAction)
        ensures
            step_ok(*old(self), ev, *final(self), a),
    {
        proof {
            reveal_with_fuel(concat_views, 7);
        }
        match ev {
            ModelEvent::Cached(c) => {
                if c {
                    ModelAction::Done(Ok(self.file.clone()))
                } else {
                    ModelAction::CreateDir { dir: self.dir.clone() }
                }
            },
            ModelEvent::DirCreated(Ok(_)) => ModelAction::Download {
                repo: String::from_str(HF_REPO_ID),
                filename: String::from_str(self.definition.remote_filename),
            },
            ModelEvent::DirCreated(Err(e)) => {
                let m = message(&vec!["Failed to create cache dir ", self.dir.as_str(), ": ", e.as_str()]);
                ModelAction::Done(Err(LayoutError::ModelDownload(m)))
            },
            ModelEvent::Downloaded(Ok(p)) => {
                let p2 = p.clone();
                self.downloaded = Some(p);
                if !self.definition.sha256_checksum.is_empty() {
                    ModelAction::ReadFile { path: p2 }
                } else {
                    ModelAction::Copy { from: p2, to: self.file.clone() }
                }
            },
            ModelEvent::Downloaded(Err(f)) => {
                let m = match &f {
                    DownloadFailure::ApiInit(e) => message(&vec!["Failed to initialize HF Hub API: ", e.as_str()]),
                    DownloadFailure::Fetch(e) => message(
                        &vec![
                            "Failed to download '",
                            self.definition.remote_filename,
                            "' from ",
                            HF_REPO_ID,
                            ": ",
                            e.as_str(),
                        ],
                    ),
                };
                ModelAction::Done(Err(LayoutError::ModelDownload(m)))
            },
            ModelEvent::FileRead(Ok(bytes)) => match &self.downloaded {
                Some(p) => match verify_checksum(&bytes, self.definition.sha256_checksum, self.model_type.as_str()) {
                    Ok(()) => ModelAction::Copy { from: p.clone(), to: self.file.clone() },
                    Err(e) => ModelAction::Done(Err(e)),
                },
                None => ModelAction::Done(
                    Err(LayoutError::ModelDownload(String::from_str("No downloaded file to check"))),
                ),
            },
            ModelEvent::FileRead(Err(e)) => {
                let m = message(&vec!["Failed to read file for checksum: ", e.as_str()]);
                ModelAction::Done(Err(LayoutError::ModelDownload(m)))
            },
            ModelEvent::Copied(Ok(_)) => ModelAction::Done(Ok(self.file.clone())),
            ModelEvent::Copied(Err(e)) => {
                let m = message(&vec!["Failed to copy model to ", self.file.as_str(), ": ", e.as_str()]);
                ModelAction::Done(Err(LayoutError::ModelDownload(m)))
            },
        }
    }
}

// ---------------------------------------------------------------------------
// Engine configuration
// ---------------------------------------------------------------------------
/// A layout-detection preset.
#[derive(Debug, Clone, Copy, PartialEq, Eq, Structural)]
pub enum LayoutPreset {
    Fast,
    Accurate,
}

/// The preset a name stands for (`fast` when the name is not known).
pub open spec fn preset_of(name: Seq<char>) -> LayoutPreset {
    if name == "accurate"@ {
        LayoutPreset::Accurate
    } else {
        LayoutPreset::Fast
    }
}

/// Parses a preset name, falling back to `Fast`.
pub fn parse_preset(name: &str) -> (p: LayoutPreset)
    ensures
        p == preset_of(name@),
{
    if same_text(name, "accurate") {
        LayoutPreset::Accurate
    } else {
        LayoutPreset::Fast
    }
}

/// Layout detection as configured for extraction.  The confidence threshold
/// is in thousandths.
#[derive(Debug, Clone)]
pub struct LayoutDetectionConfig {
    pub preset: String,
    pub confidence_threshold_millis: Option<u32>,
    pub apply_heuristics: bool,
}

/// The configuration of the layout engine.
#[derive(Debug, Clone, Copy, PartialEq, Eq)]
pub struct LayoutEngineConfig {
    pub preset: LayoutPreset,
    pub confidence_threshold_millis: Option<u32>,
    pub apply_heuristics: bool,
}

/// `config_from_extraction`: the engine configuration of the named preset,
/// with the threshold and heuristics setting taken from the extraction config.
pub fn config_from_extraction(layout_config: &LayoutDetectionConfig) -> (c: LayoutEngineConfig)
    ensures
        c.preset == preset_of(layout_config.preset@),
        c.confidence_threshold_millis == layout_config.confidence_threshold_millis,
        c.apply_heuristics == layout_config.apply_heuristics,
{
    let preset = parse_preset(layout_config.preset.as_str());
    LayoutEngineConfig {
        preset,
        confidence_threshold_millis: layout_config.confidence_threshold_millis,
        apply_heuristics: layout_config.apply_heuristics,
    }
}

// ---------------------------------------------------------------------------
// ONNX runtime discovery
// ---------------------------------------------------------------------------
/// An operating system, as far as runtime discovery cares.
#[derive(Debug, Clone, Copy, PartialEq, Eq, Structural)]
pub enum TargetOs {
    MacOs,
    Linux,
    Windows,
    Other,
}

/// Where the ONNX runtime library is commonly installed on `os`, in the order
/// in which they are tried.
pub fn platform_candidates(os: TargetOs) -> (r: Vec<&'static str>)
    ensures
        os == TargetOs::MacOs ==> r@.len() == 2,
        os == TargetOs::Linux ==> r@.len() == 4,
        os == TargetOs::Windows ==> r@.len() == 2,
        os == TargetOs::Other ==> r@.len() == 0,
        os == TargetOs::MacOs ==> r@[0]@ == "/opt/homebrew/lib/libonnxruntime.dylib"@ && r@[1]@
            == "/usr/local/lib/libonnxruntime.dylib"@,
        os == TargetOs::Linux ==> r@[0]@ == "/usr/lib/libonnxruntime.so"@ && r@[1]@
            == "/usr/local/lib/libonnxruntime.so"@ && r@[2]@ == "/usr/lib/x86_64-linux-gnu/libonnxruntime.so"@
            && r@[3]@ == "/usr/lib/aarch64-linux-gnu/libonnxruntime.so"@,
        os == TargetOs::Windows ==> r@[0]@ == "C:\\Program Files\\onnxruntime\\bin\\onnxruntime.dll"@ && r@[1]@
            == "C:\\Windows\\System32\\onnxruntime.dll"@,
{
    match os {
        TargetOs::MacOs => vec!["/opt/homebrew/lib/libonnxruntime.dylib", "/usr/local/lib/libonnxruntime.dylib"],
        TargetOs::Linux => vec![
            "/usr/lib/libonnxruntime.so",
            "/usr/local/lib/libonnxruntime.so",
            "/usr/lib/x86_64-linux-gnu/libonnxruntime.so",
            "/usr/lib/aarch64-linux-gnu/libonnxruntime.so",
        ],
        TargetOs::Windows => vec![
            "C:\\Program Files\\onnxruntime\\bin\\onnxruntime.dll",
            "C:\\Windows\\System32\\onnxruntime.dll",
        ],
        TargetOs::Other => Vec::new(),
    }
}

/// `try_discover_ort`: the first candidate that exists, unless the runtime
/// path already set exists.  `existing` tells which candidates exist.
pub fn discover_ort(preset_path_exists: bool, candidates: &Vec<&'static str>, existing: &Vec<bool>) -> (r: Result<
    Option<&'static str>,
    &'static str,
>)
    requires
        existing@.len() == candidates@.len(),
    ensures
        preset_path_exists ==> r == Ok::<Option<&'static str>, &'static str>(None),
        !preset_path_exists ==> match r {
            Ok(Some(p)) => exists|k: int|
                0 <= k < candidates@.len() && existing@[k] && candidates@[k] == p && forall|j: int|
                    0 <= j < k ==> !existing@[j],
            Ok(None) => false,
            Err(e) => e@ == "ONNX Runtime library not found in common installation paths"@ && forall|k: int|
                0 <= k < existing@.len() ==> !existing@[k],
        },
{
    if preset_path_exists {
        return Ok(None);
    }
    let mut i: usize = 0;
    while i < candidates.len()
        invariant
            i <= candidates@.len() == existing@.len(),
            !preset_path_exists,
            forall|j: int| 0 <= j < i ==> !existing@[j],
        decreases candidates.len() - i,
    {
        if existing[i] {
            return Ok(Some(candidates[i]));
        }
        i += 1;
    }
    Err("ONNX Runtime library not found in common installation paths")
}

} // verus!
