//! A curated corpus of schemas, and the endless stream of documents drawn
//! from it.
use crate::json::text;
use crate::synth::draft;
use crate::synth::draft::{Draft, DraftView};
use crate::synth::instantiate;
use crate::synth::random;
use crate::synth::random::{Dice, Rolls};
use crate::synth::schema;
use crate::synth::schema::{FaultView, SchemaError};
use crate::synth::shape;
use crate::synth::shape::{Shape, TemplateView};
use vstd::prelude::*;

verus! {

#[derive(Clone, Debug)]
pub struct Manifest {
    pub schemas: Vec<SchemaEntry>,
}

#[derive(Clone, Debug)]
pub struct SchemaEntry {
    pub name: String,
    /// One- or two-sentence natural-language description of what this schema
    /// is exercising.
    pub shows: String,
    pub dimensions: Vec<String>,
}

/// Why a corpus cannot be had: its files, the text in them, or a schema. The
/// first two carry a message.
#[derive(Debug)]
pub enum CorpusError {
    Io(String),
    Json(String),
    Schema(SchemaError),
}

impl CorpusError {
    pub open spec fn message(self) -> Seq<char> {
        match self {
            CorpusError::Io(e) => "io: "@ + e@,
            CorpusError::Json(e) => "json: "@ + e@,
            CorpusError::Schema(e) => "schema: "@ + SchemaError::message(e@),
        }
    }

    pub fn to_string(&self) -> (r: String)
        ensures
            r@ == self.message(),
    {
        match self {
            CorpusError::Io(e) => {
                let mut out = "io: ".to_string();
                out.append(e.as_str());
                out
            },
            CorpusError::Json(e) => {
                let mut out = "json: ".to_string();
                out.append(e.as_str());
                out
            },
            CorpusError::Schema(e) => {
                let mut out = "schema: ".to_string();
                let text = e.to_string();
                out.append(text.as_str());
                out
            },
        }
    }
}

pub enum CorpusFault {
    Io(Seq<char>),
    Json(Seq<char>),
    Schema(FaultView),
}

impl View for CorpusError {
    type V = CorpusFault;

    open spec fn view(&self) -> CorpusFault {
        match *self {
            CorpusError::Io(e) => CorpusFault::Io(e@),
            CorpusError::Json(e) => CorpusFault::Json(e@),
            CorpusError::Schema(e) => CorpusFault::Schema(e@),
        }
    }
}

/// The template that the text of a schema describes.
pub open spec fn schema_of(text: Seq<char>) -> Result<TemplateView, CorpusFault> {
    match text::read(text) {
        Ok(j) => match schema::parsed(j) {
            Ok(t) => Ok(t),
            Err(f) => Err(CorpusFault::Schema(f)),
        },
        Err(e) => Err(CorpusFault::Json(e)),
    }
}

/// The template that the text of a schema describes, or the first fault in it.
pub fn read_schema(text: &str) -> (r: Result<Shape, CorpusError>)
    ensures
        match r {
            Ok(s) => schema_of(text@) == Ok::<_, CorpusFault>(s@),
            Err(e) => schema_of(text@) == Err::<TemplateView, _>(e@),
        },
{
    match text::read_json(text) {
        Ok(j) => match schema::parse(&j) {
            Ok(s) => Ok(s),
            Err(e) => Err(CorpusError::Schema(e)),
        },
        Err(e) => Err(CorpusError::Json(e)),
    }
}

pub open spec fn file_view(file: Result<String, String>) -> Result<Seq<char>, Seq<char>> {
    match file {
        Ok(text) => Ok(text@),
        Err(e) => Err(e@),
    }
}

pub open spec fn files_view(v: Seq<Result<String, String>>) -> Seq<Result<Seq<char>, Seq<char>>> {
    v.map_values(|f: Result<String, String>| file_view(f))
}

/// The templates of files of schemas, or the first fault in them.
pub open spec fn loaded(files: Seq<Result<Seq<char>, Seq<char>>>) -> Result<
    Seq<TemplateView>,
    CorpusFault,
>
    decreases files.len(),
{
    if files.len() == 0 {
        Ok(Seq::empty())
    } else {
        match loaded(files.drop_last()) {
            Err(f) => Err(f),
            Ok(front) => {
                let last = match files.last() {
                    Ok(text) => schema_of(text),
                    Err(e) => Err(CorpusFault::Io(e)),
                };
                match last {
                    Ok(t) => Ok(front.push(t)),
                    Err(f) => Err(f),
                }
            },
        }
    }
}

/// The first fault stays the first one.
proof fn lemma_first_fault(files: Seq<Result<Seq<char>, Seq<char>>>, n: int)
    requires
        0 <= n <= files.len(),
        loaded(files.take(n)) is Err,
    ensures
        loaded(files) == loaded(files.take(n)),
    decreases files.len(),
{
    if n == files.len() {
        assert(files.take(n) =~= files);
    } else {
        assert(files.drop_last().take(n) =~= files.take(n));
        lemma_first_fault(files.drop_last(), n);
    }
}

#[derive(Debug)]
pub struct Corpus {
    manifest: Manifest,
    shapes: Vec<Shape>,
}

impl Corpus {
    /// The templates, in the order of the manifest.
    pub closed spec fn templates(&self) -> Seq<TemplateView> {
        shape::templates_view(self.shapes@)
    }

    pub closed spec fn listing(&self) -> Manifest {
        self.manifest
    }

    /// Loads the corpus of a manifest from the files that it lists, in its
    /// order: what reading each of them gave, its text or a message. The first
    /// fault of a file is the error.
    pub fn load(manifest: Manifest, files: &Vec<Result<String, String>>) -> (r: Result<
        Corpus,
        CorpusError,
    >)
        requires
            manifest.schemas@.len() == files@.len(),
        ensures
            match r {
                Ok(c) => c.listing() == manifest && loaded(files_view(files@)) == Ok::<
                    _,
                    CorpusFault,
                >(c.templates()),
                Err(e) => loaded(files_view(files@)) == Err::<Seq<TemplateView>, _>(e@),
            },
    {
        let ghost all = files_view(files@);
        let mut shapes: Vec<Shape> = Vec::new();
        let mut i: usize = 0;
        assert(all.take(0) =~= Seq::empty());
        while i < files.len()
            invariant
                i <= files@.len() == all.len(),
                all == files_view(files@),
                loaded(all.take(i as int)) == Ok::<_, CorpusFault>(
                    shape::templates_view(shapes@),
                ),
            decreases files@.len() - i,
        {
            proof {
                assert(all.take(i + 1).drop_last() =~= all.take(i as int));
                assert(all[i as int] == file_view(files@[i as int]));
            }
            let s = match &files[i] {
                Ok(text) => read_schema(text.as_str()),
                Err(e) => Err(CorpusError::Io(e.clone())),
            };
            match s {
                Ok(s) => {
                    let ghost before = shapes@;
                    shapes.push(s);
                    assert(shapes@.drop_last() =~= before);
                },
                Err(e) => {
                    proof {
                        lemma_first_fault(all, i + 1);
                    }
                    return Err(e);
                },
            }
            i += 1;
        }
        assert(all.take(i as int) =~= all);
        Ok(Corpus { manifest, shapes })
    }

    pub fn shapes(&self) -> (r: &Vec<Shape>)
        ensures
            shape::templates_view(r@) == self.templates(),
    {
        &self.shapes
    }

    pub fn manifest(&self) -> (r: &Manifest)
        ensures
            *r == self.listing(),
    {
        &self.manifest
    }
}

/// The document that is drawn next from one of the templates, which is drawn
/// first, and where it leaves the generator.
pub open spec fn document(templates: Seq<TemplateView>, r: Rolls) -> (DraftView, Rolls) {
    let (i, r) = r.u64(0, (templates.len() - 1) as u64);
    instantiate::drawn(templates[i as int], r)
}

/// A document that conforms to one of the templates.
pub open spec fn of_one(d: DraftView, templates: Seq<TemplateView>) -> bool {
    exists|i: int|
        0 <= i < templates.len() && instantiate::drafted(d, #[trigger] templates[i])
}

/// The next documents, and where they leave the generator.
pub open spec fn documents(templates: Seq<TemplateView>, r: Rolls, n: nat) -> (
    Seq<DraftView>,
    Rolls,
)
    decreases n,
{
    if n == 0 {
        (Seq::empty(), r)
    } else {
        let (front, r) = documents(templates, r, (n - 1) as nat);
        let (d, r) = document(templates, r);
        (front.push(d), r)
    }
}

/// Endless stream of documents drawn uniformly from a corpus.
pub struct Generator {
    rng: Dice,
    shapes: Vec<Shape>,
    actual_seed: u64,
}

impl Generator {
    pub closed spec fn templates(&self) -> Seq<TemplateView> {
        shape::templates_view(self.shapes@)
    }

    pub closed spec fn start(&self) -> u64 {
        self.actual_seed
    }

    /// Where the draws stand.
    pub closed spec fn rolls(&self) -> Rolls {
        self.rng@
    }

    /// Whether a document can be drawn.
    pub open spec fn ready(&self) -> bool {
        self.templates().len() > 0 && shape::all_drawable(self.templates())
    }

    /// A generator that starts from the given seed, or from one that no one
    /// chose.
    pub fn new(corpus: &Corpus, seed: Option<u64>) -> (g: Generator)
        ensures
            g.templates() == corpus.templates(),
            seed matches Some(s) ==> g.start() == s,
            g.rolls() == Rolls::start(g.start()),
    {
        let actual_seed: u64 = match seed {
            Some(s) => s,
            None => random::fresh_seed(),
        };
        Generator {
            rng: Dice::seeded(actual_seed),
            shapes: shape::copy_all(&corpus.shapes),
            actual_seed,
        }
    }

    pub fn seed(&self) -> (s: u64)
        ensures
            s == self.start(),
    {
        self.actual_seed
    }

    /// Whether a document can be drawn: whether there is a template, and each
    /// can be drawn from.
    pub fn is_ready(&self) -> (b: bool)
        ensures
            b == self.ready(),
    {
        proof {
            shape::lemma_templates_view(self.shapes@);
        }
        self.shapes.len() > 0 && shape::all_are_drawable(&self.shapes)
    }

    /// The next document. It conforms to one of the templates.
    pub fn next(&mut self) -> (d: Draft)
        requires
            old(self).ready(),
        ensures
            final(self).templates() == old(self).templates(),
            final(self).start() == old(self).start(),
            (d@, final(self).rolls()) == document(old(self).templates(), old(self).rolls()),
            of_one(d@, old(self).templates()),
    {
        proof {
            shape::lemma_templates_view(self.shapes@);
            shape::lemma_all_drawable(self.templates());
        }
        let ghost all = self.templates();
        let i: usize = self.rng.between(0, self.shapes.len() - 1);
        assert(all[i as int] == self.shapes@[i as int]@);
        let d = instantiate::instantiate(&self.shapes[i], &mut self.rng);
        assert(instantiate::drafted(d@, all[i as int]));
        d
    }

    /// The next `n` documents. Each conforms to one of the templates.
    pub fn take(&mut self, n: usize) -> (r: Vec<Draft>)
        requires
            old(self).ready(),
        ensures
            final(self).templates() == old(self).templates(),
            final(self).start() == old(self).start(),
            (draft::drafts_view(r@), final(self).rolls()) == documents(
                old(self).templates(),
                old(self).rolls(),
                n as nat,
            ),
            forall|k: int|
                0 <= k < r@.len() ==> of_one((#[trigger] r@[k])@, old(self).templates()),
    {
        let mut out: Vec<Draft> = Vec::new();
        let mut i: usize = 0;
        while i < n
            invariant
                i <= n,
                self.ready(),
                self.templates() == old(self).templates(),
                self.start() == old(self).start(),
                (draft::drafts_view(out@), self.rolls()) == documents(
                    old(self).templates(),
                    old(self).rolls(),
                    i as nat,
                ),
                forall|k: int|
                    0 <= k < out@.len() ==> of_one((#[trigger] out@[k])@, old(self).templates()),
            decreases n - i,
        {
            let ghost before = out@;
            out.push(self.next());
            assert(out@.drop_last() =~= before);
            i += 1;
        }
        out
    }
}

/// Two generators of one corpus and one seed give the same documents, however
/// many are drawn.
pub proof fn law_a_seed_determines_the_documents(a: Generator, b: Generator, n: nat)
    requires
        a.templates() == b.templates(),
        a.start() == b.start(),
        a.rolls() == Rolls::start(a.start()),
        b.rolls() == Rolls::start(b.start()),
    ensures
        documents(a.templates(), a.rolls(), n) == documents(b.templates(), b.rolls(), n),
{
}

/// Documents that are drawn go on where earlier ones left off.
pub proof fn law_documents_are_joined(templates: Seq<TemplateView>, r: Rolls, m: nat, n: nat)
    ensures
        ({
            let (front, s) = documents(templates, r, m);
            let (back, t) = documents(templates, s, n);
            documents(templates, r, m + n) == (front + back, t)
        }),
    decreases n,
{
    let (front, s) = documents(templates, r, m);
    if n == 0 {
        assert(front + Seq::<DraftView>::empty() =~= front);
    } else {
        law_documents_are_joined(templates, r, m, (n - 1) as nat);
        let (back, t) = documents(templates, s, (n - 1) as nat);
        let d = document(templates, t).0;
        assert(front + back.push(d) =~= (front + back).push(d));
        assert((m + n - 1) as nat == m + (n - 1) as nat);
    }
}

} // verus!
