//! The breadth-first walk over references, one decision at a time: the caller
//! reads each note that the walk hands out and feeds back what it refers to.
use crate::paths::{
    is_markdown, is_markdown_path, lookup_filename_in_vault, matches_target, path_starts_with,
    same_file, starts_with,
};
use crate::references::string_views;
use crate::text::nfc_of;
use vstd::prelude::*;

verus! {

/// Why a seed note cannot start the walk.
#[derive(Debug)]
pub enum NoteError {
    /// The note does not lie under the vault root.
    OutsideVault(String),
    /// The note is not among the vault's files.
    NotInVault(String),
}

/// Why the walk stops.
#[derive(Debug)]
pub enum TraverseError {
    /// A reference names no file of the vault.
    UnresolvedReference { reference: String, note: String },
}

/// Whether `s` holds the string `x`.
pub open spec fn holds(s: Seq<String>, x: Seq<char>) -> bool {
    exists|i: int| 0 <= i < s.len() && s[i]@ == x
}

/// Whether `s` holds `x`.
fn contains(s: &Vec<String>, x: &str) -> (r: bool)
    ensures
        r == holds(s@, x@),
{
    let xs = String::from_str(x);
    let mut i: usize = 0;
    while i < s.len()
        invariant
            i <= s@.len(),
            xs@ == x@,
            forall|j: int| 0 <= j < i ==> s@[j]@ != x@,
        decreases s@.len() - i,
    {
        if s[i] == xs {
            return true;
        }
        i = i + 1;
    }
    false
}

/// Checks a seed note, given as the canonical form of its path: it must lie
/// under `vault_root` and be one of `vault_files` up to NFC normalization.
pub fn resolve_input_note(canonical: &str, vault_root: &str, vault_files: &[String]) -> (r:
    Result<String, NoteError>)
    ensures
        !path_starts_with(canonical@, vault_root@) ==> (r matches Err(NoteError::OutsideVault(p))
            && p@ == canonical@),
        path_starts_with(canonical@, vault_root@) && !(exists|i: int|
            0 <= i < vault_files@.len() && nfc_of(vault_files@[i]@) == nfc_of(canonical@))
            ==> (r matches Err(NoteError::NotInVault(p)) && p@ == canonical@),
        path_starts_with(canonical@, vault_root@) && (exists|i: int|
            0 <= i < vault_files@.len() && nfc_of(vault_files@[i]@) == nfc_of(canonical@))
            ==> (r matches Ok(p) && p@ == canonical@),
{
    if !starts_with(canonical, vault_root) {
        return Err(NoteError::OutsideVault(String::from_str(canonical)));
    }
    let mut i: usize = 0;
    while i < vault_files.len()
        invariant
            i <= vault_files@.len(),
            path_starts_with(canonical@, vault_root@),
            forall|j: int| 0 <= j < i ==> nfc_of(vault_files@[j]@) != nfc_of(canonical@),
        decreases vault_files@.len() - i,
    {
        if same_file(vault_files[i].as_str(), canonical) {
            return Ok(String::from_str(canonical));
        }
        i = i + 1;
    }
    Err(NoteError::NotInVault(String::from_str(canonical)))
}

/// The vault path that the file target `reference` resolves to, if any.
pub fn resolve_reference(reference: &str, vault_contents: &[String]) -> (r: Option<String>)
    ensures
        r.is_none() <==> forall|i: int|
            0 <= i < vault_contents@.len() ==> !matches_target(vault_contents@[i]@, reference@),
        r.is_some() ==> exists|i: int|
            crate::paths::first_match(reference@, string_views(vault_contents@), i)
                && r.unwrap()@ == vault_contents@[i]@,
{
    match lookup_filename_in_vault(reference, vault_contents) {
        Some(p) => Some(p.clone()),
        None => None,
    }
}

/// The state of a walk: the notes still to scan, the notes scanned, and every
/// path reached so far.
pub struct Traversal {
    pub queue: Vec<String>,
    pub head: usize,
    pub visited: Vec<String>,
    pub outputs: Vec<String>,
    pub recursive: bool,
    pub skip_missing: bool,
}

impl Traversal {
    /// The notes still to scan, in order.
    pub open spec fn pending(&self) -> Seq<Seq<char>> {
        string_views(self.queue@).subrange(self.head as int, self.queue@.len() as int)
    }

    /// The notes already handed out.
    pub open spec fn visited_set(&self) -> Set<Seq<char>> {
        string_views(self.visited@).to_set()
    }

    /// The paths reached so far.
    pub open spec fn output_set(&self) -> Set<Seq<char>> {
        string_views(self.outputs@).to_set()
    }

    /// The reached paths that have not been handed out for scanning.
    pub open spec fn unscanned(&self) -> Set<Seq<char>> {
        self.output_set().difference(self.visited_set())
    }

    /// The reached paths are listed once each, and every pending note has
    /// been reached.
    pub open spec fn wf(&self) -> bool {
        &&& self.head <= self.queue@.len()
        &&& string_views(self.outputs@).no_duplicates()
        &&& forall|i: int| 0 <= i < self.pending().len() ==> self.output_set().contains(self.pending()[i])
    }

    /// A walk with nothing reached yet.
    pub fn new(recursive: bool, skip_missing: bool) -> (r: Traversal)
        ensures
            r.wf(),
            r.pending() == Seq::<Seq<char>>::empty(),
            r.visited_set() == Set::<Seq<char>>::empty(),
            r.output_set() == Set::<Seq<char>>::empty(),
            r.recursive == recursive,
            r.skip_missing == skip_missing,
    {
        let r = Traversal {
            queue: Vec::new(),
            head: 0,
            visited: Vec::new(),
            outputs: Vec::new(),
            recursive,
            skip_missing,
        };
        assert(r.pending() =~= seq![]);
        assert(r.visited_set() =~= Set::empty());
        assert(r.output_set() =~= Set::empty());
        r
    }

    /// Adds `path` to the reached paths, if it is not there yet.
    fn insert_output(&mut self, path: &str)
        requires
            old(self).wf(),
        ensures
            final(self).output_set() == old(self).output_set().insert(path@),
            final(self).queue == old(self).queue,
            final(self).head == old(self).head,
            final(self).visited == old(self).visited,
            final(self).recursive == old(self).recursive,
            final(self).skip_missing == old(self).skip_missing,
            string_views(final(self).outputs@).no_duplicates(),
    {
        if contains(&self.outputs, path) {
            assert(self.output_set().contains(path@)) by {
                let i = choose|i: int| 0 <= i < self.outputs@.len() && self.outputs@[i]@ == path@;
                assert(string_views(self.outputs@)[i] == path@);
            }
            assert(self.output_set().insert(path@) =~= self.output_set());
        } else {
            let ghost before = string_views(self.outputs@);
            assert(!before.contains(path@)) by {
                if before.contains(path@) {
                    let i = choose|i: int| 0 <= i < before.len() && before[i] == path@;
                    assert(self.outputs@[i]@ == path@);
                }
            }
            self.outputs.push(String::from_str(path));
            assert(string_views(self.outputs@) =~= before.push(path@));
            proof {
                before.lemma_push_to_set_commute(path@);
            }
        }
    }

    proof fn lemma_unscanned_after_insert(before: Traversal, after: Traversal, p: Seq<char>)
        requires
            after.output_set() == before.output_set().insert(p),
            after.visited_set() == before.visited_set(),
        ensures
            after.unscanned().finite(),
            after.unscanned().len() <= before.unscanned().len() + 1,
    {
        broadcast use vstd::seq_lib::seq_to_set_is_finite;
        vstd::set_lib::lemma_len_difference(before.output_set(), before.visited_set());
        if before.visited_set().contains(p) || before.output_set().contains(p) {
            assert(after.unscanned() =~= before.unscanned());
        } else {
            assert(after.unscanned() =~= before.unscanned().insert(p));
        }
    }

    /// Appends `path` to the notes to scan.
    fn enqueue(&mut self, path: &str)
        requires
            old(self).head <= old(self).queue@.len(),
        ensures
            final(self).pending() == old(self).pending().push(path@),
            final(self).head == old(self).head,
            final(self).head <= final(self).queue@.len(),
            final(self).outputs == old(self).outputs,
            final(self).visited == old(self).visited,
            final(self).recursive == old(self).recursive,
            final(self).skip_missing == old(self).skip_missing,
    {
        let ghost before = self.pending();
        self.queue.push(String::from_str(path));
        assert(self.pending() =~= before.push(path@));
    }

    /// Starts the walk at `note`: it is reached, and waits to be scanned.
    pub fn add_seed(&mut self, note: &str)
        requires
            old(self).wf(),
        ensures
            final(self).wf(),
            final(self).output_set() == old(self).output_set().insert(note@),
            final(self).unscanned().finite(),
            final(self).unscanned().len() <= old(self).unscanned().len() + 1,
            final(self).pending() == old(self).pending().push(note@),
            final(self).visited_set() == old(self).visited_set(),
            final(self).recursive == old(self).recursive,
            final(self).skip_missing == old(self).skip_missing,
    {
        let ghost before = *self;
        self.insert_output(note);
        proof { Self::lemma_unscanned_after_insert(before, *self, note@); }
        assert(self.pending() == before.pending());
        self.enqueue(note);
        assert forall|i: int| 0 <= i < self.pending().len() implies self.output_set().contains(
            self.pending()[i],
        ) by {
            if i < before.pending().len() {
                assert(before.output_set().contains(before.pending()[i]));
            }
        }
    }

    /// Records `target`, a path that a reference resolved to: it is reached,
    /// and, in a recursive walk, a markdown document is queued to be scanned.
    pub fn add_target(&mut self, target: &str)
        requires
            old(self).wf(),
        ensures
            final(self).wf(),
            final(self).output_set() == old(self).output_set().insert(target@),
            final(self).unscanned().finite(),
            final(self).unscanned().len() <= old(self).unscanned().len() + 1,
            final(self).pending() == if old(self).recursive && is_markdown_path(target@) {
                old(self).pending().push(target@)
            } else {
                old(self).pending()
            },
            final(self).visited_set() == old(self).visited_set(),
            final(self).recursive == old(self).recursive,
            final(self).skip_missing == old(self).skip_missing,
    {
        let ghost before = *self;
        self.insert_output(target);
        proof { Self::lemma_unscanned_after_insert(before, *self, target@); }
        assert(self.pending() == before.pending());
        if self.recursive && is_markdown(target) {
            self.enqueue(target);
        }
        assert forall|i: int| 0 <= i < self.pending().len() implies self.output_set().contains(
            self.pending()[i],
        ) by {
            if i < before.pending().len() {
                assert(before.output_set().contains(before.pending()[i]));
            }
        }
    }

    /// The next note to scan: pending notes already scanned are dropped, and
    /// the note handed out counts as scanned from then on. None when no note
    /// is left. No note is handed out twice, so a walk over a cycle of
    /// references ends: each note handed out shrinks the finite set of
    /// reached but unscanned paths, which only a newly reached path grows.
    pub fn next_note(&mut self) -> (r: Option<String>)
        requires
            old(self).wf(),
        ensures
            final(self).wf(),
            final(self).output_set() == old(self).output_set(),
            final(self).recursive == old(self).recursive,
            final(self).skip_missing == old(self).skip_missing,
            final(self).unscanned().finite(),
            r.is_some() ==> final(self).unscanned().len() < old(self).unscanned().len(),
            r.is_none() ==> final(self).pending().len() == 0 && final(self).visited_set()
                == old(self).visited_set() && forall|i: int|
                0 <= i < old(self).pending().len() ==> old(self).visited_set().contains(
                    old(self).pending()[i],
                ),
            r.is_some() ==> {
                let n = r.unwrap()@;
                &&& !old(self).visited_set().contains(n)
                &&& final(self).visited_set() == old(self).visited_set().insert(n)
                &&& old(self).output_set().contains(n)
                &&& exists|k: int|
                    0 <= k < old(self).pending().len() && old(self).pending()[k] == n
                        && final(self).pending() == old(self).pending().subrange(
                        k + 1,
                        old(self).pending().len() as int,
                    ) && forall|j: int|
                        0 <= j < k ==> old(self).visited_set().contains(old(self).pending()[j])
            },
    {
        let ghost start = self.head;
        assert forall|j: int| start <= j < self.queue@.len() implies self.output_set().contains(
            string_views(self.queue@)[j],
        ) by {
            assert(self.pending()[j - start] == string_views(self.queue@)[j]);
        }
        while self.head < self.queue.len()
            invariant
                start <= self.head <= self.queue@.len(),
                self.queue == old(self).queue,
                self.visited == old(self).visited,
                self.outputs == old(self).outputs,
                self.recursive == old(self).recursive,
                self.skip_missing == old(self).skip_missing,
                start == old(self).head,
                old(self).wf(),
                forall|j: int|
                    start <= j < self.queue@.len() ==> self.output_set().contains(
                        string_views(self.queue@)[j],
                    ),
                forall|j: int|
                    start <= j < self.head ==> self.visited_set().contains(
                        string_views(self.queue@)[j],
                    ),
            decreases self.queue@.len() - self.head,
        {
            let i = self.head;
            self.head = self.head + 1;
            let note = self.queue[i].as_str();
            if !contains(&self.visited, note) {
                let ghost before = string_views(self.visited@);
                let ghost k = i - start;
                assert(old(self).pending()[k] == note@);
                assert(!old(self).visited_set().contains(note@)) by {
                    if before.contains(note@) {
                        let j = choose|j: int| 0 <= j < before.len() && before[j] == note@;
                        assert(self.visited@[j]@ == note@);
                    }
                }
                assert(self.output_set().contains(note@)) by {
                    assert(string_views(self.queue@)[i as int] == note@);
                }
                assert forall|j: int| 0 <= j < self.pending().len() implies self.output_set().contains(
                    self.pending()[j],
                ) by {
                    assert(self.pending()[j] == string_views(self.queue@)[self.head + j]);
                }
                self.visited.push(String::from_str(note));
                assert(string_views(self.visited@) =~= before.push(note@));
                proof {
                    before.lemma_push_to_set_commute(note@);
                }
                assert(self.pending() =~= old(self).pending().subrange(
                    k + 1,
                    old(self).pending().len() as int,
                ));
                assert forall|j: int| 0 <= j < k implies old(self).visited_set().contains(
                    old(self).pending()[j],
                ) by {
                    assert(old(self).pending()[j] == string_views(self.queue@)[start + j]);
                }
                proof {
                    broadcast use vstd::seq_lib::seq_to_set_is_finite;
                    assert(self.unscanned() =~= old(self).unscanned().remove(note@));
                    vstd::set_lib::lemma_len_difference(self.output_set(), self.visited_set());
                }
                return Some(String::from_str(note));
            }
            assert(self.visited_set().contains(note@)) by {
                let j = choose|j: int| 0 <= j < self.visited@.len() && self.visited@[j]@ == note@;
                assert(string_views(self.visited@)[j] == note@);
            }
        }
        assert(self.pending() =~= seq![]);
        proof {
            broadcast use vstd::seq_lib::seq_to_set_is_finite;
            vstd::set_lib::lemma_len_difference(self.output_set(), self.visited_set());
        }
        assert forall|j: int| 0 <= j < old(self).pending().len() implies old(
            self,
        ).visited_set().contains(old(self).pending()[j]) by {
            assert(old(self).pending()[j] == string_views(self.queue@)[start + j]);
        }
        None
    }

    /// What becomes of the reference `raw` found in `note`: the vault path it
    /// resolves to; when it resolves to none, nothing in a lenient walk, and
    /// an error otherwise.
    pub fn follow_reference(&self, note: &str, raw: &str, vault_contents: &[String]) -> (r:
        Result<Option<String>, TraverseError>)
        ensures
            (forall|i: int|
                0 <= i < vault_contents@.len() ==> !matches_target(vault_contents@[i]@, raw@))
                ==> if self.skip_missing {
                r matches Ok(None)
            } else {
                (r matches Err(TraverseError::UnresolvedReference { reference, note: n })
                    && reference@ == raw@ && n@ == note@)
            },
            (exists|i: int|
                0 <= i < vault_contents@.len() && matches_target(vault_contents@[i]@, raw@))
                ==> (r matches Ok(Some(p)) && exists|i: int|
                crate::paths::first_match(raw@, string_views(vault_contents@), i) && p@
                    == vault_contents@[i]@),
    {
        match resolve_reference(raw, vault_contents) {
            Some(p) => Ok(Some(p)),
            None => {
                if self.skip_missing {
                    Ok(None)
                } else {
                    Err(
                        TraverseError::UnresolvedReference {
                            reference: String::from_str(raw),
                            note: String::from_str(note),
                        },
                    )
                }
            },
        }
    }

    /// The reached paths.
    pub fn outputs(&self) -> (r: Vec<String>)
        ensures
            string_views(r@) == string_views(self.outputs@),
    {
        let mut r: Vec<String> = Vec::new();
        let mut i: usize = 0;
        while i < self.outputs.len()
            invariant
                i <= self.outputs@.len(),
                string_views(r@) == string_views(self.outputs@).take(i as int),
            decreases self.outputs@.len() - i,
        {
            let ghost before = string_views(r@);
            let item = String::from_str(self.outputs[i].as_str());
            r.push(item);
            assert(string_views(r@) =~= before.push(item@));
            assert(string_views(r@) =~= string_views(self.outputs@).take(i + 1));
            i = i + 1;
        }
        assert(string_views(self.outputs@).take(i as int) =~= string_views(self.outputs@));
        r
    }
}

} // verus!
