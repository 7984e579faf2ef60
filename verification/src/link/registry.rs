//! Model files found in a directory.
//!
//! Files are only listed; nothing reads or runs them. The listing of the
//! directory is handed in.
use crate::text::same;
use vstd::prelude::*;
use vstd::string::*;

verus! {

/// A file of a directory listing. Stem and extension are absent where the name
/// has none that is valid text.
#[derive(Debug, Clone, PartialEq, Eq)]
pub struct FileEntry {
    /// The path of the file.
    pub path: String,
    /// The name without its extension.
    pub stem: Option<String>,
    /// The extension.
    pub extension: Option<String>,
}

/// A model file.
#[derive(Debug, Clone, PartialEq, Eq)]
pub struct ModelInfo {
    /// The name of the model.
    pub name: String,
    /// The path of the file.
    pub path: String,
    /// The kind of model.
    pub model_type: String,
    /// Its version.
    pub version: String,
}

/// What is known of a model file.
pub struct ModelContent {
    pub name: Seq<char>,
    pub path: Seq<char>,
    pub model_type: Seq<char>,
    pub version: Seq<char>,
}

impl View for ModelInfo {
    type V = ModelContent;

    open spec fn view(&self) -> ModelContent {
        ModelContent {
            name: self.name@,
            path: self.path@,
            model_type: self.model_type@,
            version: self.version@,
        }
    }
}

/// Whether a file is a model.
pub open spec fn is_model(f: FileEntry) -> bool {
    f.extension matches Some(e) && e@ == "onnx"@
}

/// The model of a file.
pub open spec fn model_of(f: FileEntry) -> ModelContent {
    ModelContent {
        name: match f.stem {
            Some(s) => s@,
            None => "unknown"@,
        },
        path: f.path@,
        model_type: "onnx"@,
        version: "unknown"@,
    }
}

/// The models of a listing, in its order.
pub open spec fn models_of(files: Seq<FileEntry>) -> Seq<ModelContent>
    decreases files.len(),
{
    if files.len() == 0 {
        Seq::empty()
    } else if is_model(files.last()) {
        models_of(files.drop_last()).push(model_of(files.last()))
    } else {
        models_of(files.drop_last())
    }
}

/// Models as known.
pub open spec fn contents(models: Seq<ModelInfo>) -> Seq<ModelContent> {
    models.map_values(|m: ModelInfo| m@)
}

/// The models of a directory.
#[derive(Debug)]
pub struct ModelRegistry {
    model_dir: String,
    models: Vec<ModelInfo>,
}

/// What a registry holds.
pub struct RegistryContent {
    pub model_dir: Seq<char>,
    pub models: Seq<ModelContent>,
}

impl View for ModelRegistry {
    type V = RegistryContent;

    closed spec fn view(&self) -> RegistryContent {
        RegistryContent { model_dir: self.model_dir@, models: contents(self.models@) }
    }
}

impl ModelRegistry {
    /// A registry of a directory with a listing.
    pub fn new(model_dir: String, files: &[FileEntry]) -> (r: Self)
        ensures
            r@ == (RegistryContent { model_dir: model_dir@, models: models_of(files@) }),
    {
        ModelRegistry { model_dir, models: Self::scan_directory(files) }
    }

    /// The models of a listing.
    pub fn scan_directory(files: &[FileEntry]) -> (models: Vec<ModelInfo>)
        ensures
            contents(models@) == models_of(files@),
    {
        let mut models: Vec<ModelInfo> = Vec::new();
        let mut i: usize = 0;
        assert(files@.take(0) =~= Seq::empty());
        assert(contents(models@) =~= Seq::empty());
        while i < files.len()
            invariant
                i <= files@.len(),
                contents(models@) == models_of(files@.take(i as int)),
            decreases files@.len() - i,
        {
            proof {
                assert(files@.take(i + 1).drop_last() =~= files@.take(i as int));
                assert(files@.take(i + 1).last() == files@[i as int]);
            }
            let is_onnx: bool = match &files[i].extension {
                Some(e) => same(e.as_str(), "onnx"),
                None => false,
            };
            if is_onnx {
                let ghost before = contents(models@);
                let info = ModelInfo {
                    name: match &files[i].stem {
                        Some(s) => s.clone(),
                        None => String::from_str("unknown"),
                    },
                    path: files[i].path.clone(),
                    model_type: String::from_str("onnx"),
                    version: String::from_str("unknown"),
                };
                assert(info@ == model_of(files@[i as int]));
                models.push(info);
                assert(contents(models@) =~= before.push(info@));
            }
            i += 1;
        }
        assert(files@.take(i as int) =~= files@);
        models
    }

    /// All models.
    pub fn list_models(&self) -> (models: &[ModelInfo])
        ensures
            contents(models@) == self@.models,
    {
        self.models.as_slice()
    }

    /// Number of models.
    pub fn count(&self) -> (n: usize)
        ensures
            n == self@.models.len(),
    {
        self.models.len()
    }

    /// The first model with a name.
    pub fn get_model(&self, name: &str) -> (r: Option<&ModelInfo>)
        ensures
            match r {
                Some(m) => exists|k: int|
                    {
                        &&& 0 <= k < self@.models.len()
                        &&& #[trigger] self@.models[k] == m@
                        &&& m@.name == name@
                        &&& forall|j: int|
                            0 <= j < k ==> (#[trigger] self@.models[j]).name != name@
                    },
                None => forall|k: int|
                    0 <= k < self@.models.len() ==> (#[trigger] self@.models[k]).name != name@,
            },
    {
        let mut i: usize = 0;
        while i < self.models.len()
            invariant
                i <= self.models@.len(),
                forall|j: int| 0 <= j < i ==> (#[trigger] self@.models[j]).name != name@,
            decreases self.models@.len() - i,
        {
            assert(self@.models[i as int] == self.models@[i as int]@);
            if same(self.models[i].name.as_str(), name) {
                return Some(&self.models[i]);
            }
            i += 1;
        }
        None
    }

    /// Take in a new listing of the directory.
    pub fn refresh(&mut self, files: &[FileEntry])
        ensures
            final(self)@ == (RegistryContent { models: models_of(files@), ..old(self)@ }),
    {
        self.models = Self::scan_directory(files);
    }

    /// The directory.
    pub fn model_dir(&self) -> (d: &str)
        ensures
            d@ == self@.model_dir,
    {
        self.model_dir.as_str()
    }
}

/// The models are the files with the extension `onnx`, in the order of the
/// listing, each with its path, named after its stem, or `unknown` without one.
pub proof fn law_models_are_the_onnx_files(files: Seq<FileEntry>)
    ensures
        models_of(files) == files.filter(
            |f: FileEntry| f.extension is Some && f.extension.unwrap()@ == "onnx"@,
        ).map_values(
            |f: FileEntry|
                ModelContent {
                    name: if f.stem is Some {
                        f.stem.unwrap()@
                    } else {
                        "unknown"@
                    },
                    path: f.path@,
                    model_type: "onnx"@,
                    version: "unknown"@,
                },
        ),
    decreases files.len(),
{
    reveal(Seq::filter);
    let onnx = |f: FileEntry| f.extension is Some && f.extension.unwrap()@ == "onnx"@;
    let model = |f: FileEntry|
        ModelContent {
            name: if f.stem is Some {
                f.stem.unwrap()@
            } else {
                "unknown"@
            },
            path: f.path@,
            model_type: "onnx"@,
            version: "unknown"@,
        };
    let all = files.filter(onnx).map_values(model);
    if files.len() > 0 {
        law_models_are_the_onnx_files(files.drop_last());
        let front = files.drop_last().filter(onnx).map_values(model);
        if onnx(files.last()) {
            assert(all =~= front.push(model(files.last())));
        } else {
            assert(all =~= front);
        }
    } else {
        assert(all =~= seq![]);
    }
}

} // verus!
