use vstd::prelude::*;

use crate::changeset::{
    apply_ops, compose_ops, is_identity, len_after, len_before, lemma_apply_len,
    lemma_compose_apply, lemma_identity_apply, lemma_invert, ChangeSet, Op,
};
use crate::history::{revision_of, History, HistoryModel};
use crate::lsp::{changeset_to_changes, events_of, ChangeEvent, ChangeEventModel};
use crate::selection::Selection;
use crate::text::Text;
use crate::transaction::{apply_tx, State, StateModel, Transaction, TransactionModel};

verus! {

/// Editing mode of a document.
#[derive(Copy, Clone, PartialEq, Eq, Hash, Debug, Structural)]
pub enum Mode {
    Normal,
    Insert,
    Goto,
}

/// A change notification for the language-analysis collaborator: the
/// document version it was made at and the content changes, in order.
pub struct DidChange {
    pub version: i32,
    pub changes: Vec<ChangeEvent>,
}

/// The change set that keeps all of a text of `n` characters.
pub open spec fn identity_ops(n: nat) -> Seq<Op> {
    if n > 0 {
        seq![Op::Retain(n)]
    } else {
        seq![]
    }
}

/// What the editing logic of a document works on.
pub struct DocumentModel {
    pub state: StateModel,
    pub changes: Seq<Op>,
    pub old_state: Option<StateModel>,
    pub history: HistoryModel,
    pub version: int,
}

/// The document after `apply` of `tx`: the state moves on and the change is
/// folded into the pending changes, the state before them being kept when
/// they start; nothing at all changes where `tx` does not fit the text.
pub open spec fn apply_doc(d: DocumentModel, tx: TransactionModel) -> DocumentModel {
    if len_before(tx.changes) == d.state.doc.len() {
        DocumentModel {
            state: apply_tx(tx, d.state),
            changes: if is_identity(tx.changes) {
                d.changes
            } else {
                compose_ops(d.changes, tx.changes)
            },
            old_state: if is_identity(d.changes) && !is_identity(tx.changes) {
                Some(d.state)
            } else {
                d.old_state
            },
            history: d.history,
            version: d.version,
        }
    } else {
        d
    }
}

/// The document after its pending changes are committed to history as one
/// revision.
pub open spec fn commit_doc(d: DocumentModel) -> DocumentModel {
    if is_identity(d.changes) {
        d
    } else {
        DocumentModel {
            state: d.state,
            changes: identity_ops(d.state.doc.len()),
            old_state: None,
            history: HistoryModel {
                undo: d.history.undo.push(
                    revision_of(
                        TransactionModel { changes: d.changes, selection: Some(d.state.selection) },
                        d.old_state->Some_0,
                    ),
                ),
                redo: seq![],
            },
            version: d.version,
        }
    }
}

/// The document after `undo`.
pub open spec fn undo_doc(d: DocumentModel) -> DocumentModel {
    if d.history.undo.len() == 0 {
        d
    } else {
        let rev = d.history.undo.last();
        let state = apply_tx(rev.inversion, d.state);
        DocumentModel {
            state,
            changes: identity_ops(state.doc.len()),
            old_state: d.old_state,
            history: HistoryModel { undo: d.history.undo.drop_last(), redo: d.history.redo.push(rev) },
            version: d.version + 1,
        }
    }
}

/// The document after `redo`.
pub open spec fn redo_doc(d: DocumentModel) -> DocumentModel {
    if d.history.redo.len() == 0 {
        d
    } else {
        let rev = d.history.redo.last();
        let state = apply_tx(rev.transaction, d.state);
        DocumentModel {
            state,
            changes: identity_ops(state.doc.len()),
            old_state: d.old_state,
            history: HistoryModel { undo: d.history.undo.push(rev), redo: d.history.redo.drop_last() },
            version: d.version + 1,
        }
    }
}

/// One buffer being edited: its state, the changes made since the last
/// commit to history, the history, and what the collaborators must be told.
///
/// The syntax tree and the language-analysis session live with the owner of
/// the document. A change marks the tree as stale, and, while a session is
/// attached, queues a change notification in `outbox`; the owner delivers the
/// queue in order, waiting for each delivery, before the next edit.
pub struct Document {
    pub state: State,
    /// Canonical path of the file on disk.
    pub path: Option<String>,
    pub mode: Mode,
    pub restore_cursor: bool,
    /// Set when the text changed since the syntax tree was last built.
    pub syntax_stale: bool,
    /// Language scope name, usually `source.<lang>`.
    pub language: Option<String>,
    /// Pending changes since the last history commit.
    pub changes: ChangeSet,
    pub old_state: Option<State>,
    pub history: History,
    pub version: i32,
    /// Whether a language-analysis session is attached.
    pub language_server: bool,
    /// Change notifications not yet delivered, oldest first.
    pub outbox: Vec<DidChange>,
}

impl View for Document {
    type V = DocumentModel;

    open spec fn view(&self) -> DocumentModel {
        DocumentModel {
            state: self.state@,
            changes: self.changes@,
            old_state: match self.old_state {
                Some(s) => Some(s@),
                None => None,
            },
            history: self.history@,
            version: self.version as int,
        }
    }
}

/// The model-level form of the document invariant.
pub open spec fn doc_model_wf(d: DocumentModel) -> bool {
    !is_identity(d.changes) ==> {
        &&& d.old_state is Some
        &&& len_before(d.changes) == d.old_state->Some_0.doc.len()
        &&& apply_ops(d.changes, d.old_state->Some_0.doc) == d.state.doc
    }
}

impl Document {
    pub open spec fn wf(&self) -> bool {
        &&& self.state.wf()
        &&& self.changes.wf()
        &&& self.changes.len_after_spec() == self.state.doc@.len()
        &&& self.history.wf()
        &&& doc_model_wf(self@)
        &&& match self.old_state {
            Some(s) => s.wf(),
            None => true,
        }
    }

    /// Everything but the editing model is as in `other`.
    pub open spec fn same_surroundings(&self, other: &Document) -> bool {
        &&& self.path == other.path
        &&& self.mode == other.mode
        &&& self.restore_cursor == other.restore_cursor
        &&& self.language == other.language
        &&& self.language_server == other.language_server
    }

    /// A document over `state`, with no path, history or pending changes.
    pub fn new(state: State) -> (r: Document)
        requires
            state.wf(),
        ensures
            r.wf(),
            r.state@ == state@,
            r.path is None,
            r.mode == Mode::Normal,
            !r.restore_cursor,
            !r.syntax_stale,
            r.language is None,
            r.old_state is None,
            r.changes@ == identity_ops(state.doc@.len()),
            r.history@.undo.len() == 0,
            r.history@.redo.len() == 0,
            r.version == 0,
            !r.language_server,
            r.outbox@.len() == 0,
    {
        proof {
            broadcast use crate::changeset::lemma_cons;
        }
        let changes = ChangeSet::new(&state.doc);
        Document {
            state,
            path: None,
            mode: Mode::Normal,
            restore_cursor: false,
            syntax_stale: false,
            language: None,
            changes,
            old_state: None,
            history: History::new(),
            version: 0,
            language_server: false,
            outbox: Vec::new(),
        }
    }
}

impl Document {
    /// Applies `transaction` to the state and tells the collaborators,
    /// leaving the pending changes and the history alone.
    fn apply_inner(&mut self, transaction: &Transaction) -> (r: bool)
        requires
            old(self).state.wf(),
            transaction.wf(),
        ensures
            r == (transaction.changes.len_spec() == old(self).state.doc@.len()),
            final(self).state@ == apply_tx(transaction@, old(self).state@),
            final(self).state.wf(),
            final(self).changes == old(self).changes,
            final(self).old_state == old(self).old_state,
            final(self).history == old(self).history,
            final(self).version == old(self).version,
            final(self).same_surroundings(old(self)),
            final(self).syntax_stale == (old(self).syntax_stale || (r && !is_identity(
                transaction.changes@,
            ))),
            outbox_after(
                old(self).outbox@,
                final(self).outbox@,
                notifies(old(self), transaction.changes@, r),
                old(self).version,
                events_of(transaction.changes@, old(self).state.doc@, 0),
            ),
    {
        let old_doc = self.state.doc.snapshot();
        let success = transaction.apply(&mut self.state);
        if success && !transaction.changes.is_empty() {
            self.syntax_stale = true;
            if self.language_server && old_doc.len_chars() <= usize::MAX / 2 {
                let events = changeset_to_changes(&old_doc, &transaction.changes);
                let ghost prev = self.outbox@;
                self.outbox.push(DidChange { version: self.version, changes: events });
                assert(self.outbox@.take(prev.len() as int) =~= prev);
            }
        }
        success
    }
}

impl Document {
    /// Applies `transaction` and folds its changes into the pending ones.
    ///
    /// Returns whether it was applied; where the transaction was made for a
    /// text of another length nothing changes at all.
    pub fn apply(&mut self, transaction: &Transaction) -> (r: bool)
        requires
            old(self).wf(),
            transaction.wf(),
        ensures
            final(self).wf(),
            r == (len_before(transaction.changes@) == old(self).state.doc@.len()),
            final(self)@ == apply_doc(old(self)@, transaction@),
            final(self).same_surroundings(old(self)),
            final(self).syntax_stale == (old(self).syntax_stale || (r && !is_identity(
                transaction.changes@,
            ))),
            outbox_after(
                old(self).outbox@,
                final(self).outbox@,
                notifies(old(self), transaction.changes@, r),
                old(self).version,
                events_of(transaction.changes@, old(self).state.doc@, 0),
            ),
    {
        if transaction.changes.len() != self.state.doc.len_chars() {
            return false;
        }
        let ghost d0 = self@;
        let ghost s0 = self.state@;
        let tx_empty = transaction.changes.is_empty();
        if self.changes.is_empty() && !tx_empty {
            self.old_state = Some(self.state.snapshot());
        }
        let success = self.apply_inner(transaction);
        proof {
            lemma_apply_len(transaction.changes@, s0.doc);
            if tx_empty {
                lemma_identity_apply(transaction.changes@, s0.doc);
            }
        }
        if !tx_empty {
            let composed = self.changes.snapshot().compose(transaction.changes.snapshot());
            self.changes = composed;
            proof {
                let c = d0.changes;
                let o = self.old_state->Some_0@.doc;
                if is_identity(c) {
                    crate::changeset::lemma_identity_len(c);
                    lemma_identity_apply(c, s0.doc);
                    lemma_compose_apply(c, transaction.changes@, s0.doc);
                } else {
                    lemma_compose_apply(c, transaction.changes@, o);
                }
            }
        }
        success
    }

    /// Commits the pending changes to history as one revision, leaving
    /// `selection` as it is now; nothing happens while none are pending.
    pub fn append_changes_to_history(&mut self)
        requires
            old(self).wf(),
        ensures
            final(self).wf(),
            final(self)@ == commit_doc(old(self)@),
            final(self).same_surroundings(old(self)),
            final(self).syntax_stale == old(self).syntax_stale,
            final(self).outbox == old(self).outbox,
    {
        if self.changes.is_empty() {
            return;
        }
        let mut pending = ChangeSet::identity(self.state.doc.len_chars());
        std::mem::swap(&mut self.changes, &mut pending);
        let mut original: Option<State> = None;
        std::mem::swap(&mut self.old_state, &mut original);
        let transaction = Transaction::from_changes(pending).with_selection(
            self.state.selection.snapshot(),
        );
        match original {
            Some(o) => self.history.commit_revision(transaction, &o),
            None => {},
        }
    }

    /// Undoes the latest committed revision; `false`, with nothing changed,
    /// when there is none.
    pub fn undo(&mut self) -> (r: bool)
        requires
            old(self).wf(),
            old(self).version < i32::MAX,
        ensures
            final(self).wf(),
            final(self)@ == undo_doc(old(self)@),
            r == (old(self)@.history.undo.len() > 0 && len_before(
                old(self)@.history.undo.last().inversion.changes,
            ) == old(self).state.doc@.len()),
            old(self)@.history.undo.len() == 0 ==> *final(self) == *old(self),
            final(self).same_surroundings(old(self)),
            old(self)@.history.undo.len() > 0 ==> {
                let changes = old(self)@.history.undo.last().inversion.changes;
                &&& final(self).syntax_stale == (old(self).syntax_stale || (r && !is_identity(changes)))
                &&& outbox_after(
                    old(self).outbox@,
                    final(self).outbox@,
                    notifies(old(self), changes, r),
                    (old(self).version + 1) as i32,
                    events_of(changes, old(self).state.doc@, 0),
                )
            },
    {
        match self.history.undo() {
            Some(transaction) => {
                self.version = self.version + 1;
                let success = self.apply_inner(&transaction);
                self.changes = ChangeSet::new(&self.state.doc);
                success
            },
            None => false,
        }
    }

    /// Redoes the latest undone revision; `false`, with nothing changed,
    /// when there is none.
    pub fn redo(&mut self) -> (r: bool)
        requires
            old(self).wf(),
            old(self).version < i32::MAX,
        ensures
            final(self).wf(),
            final(self)@ == redo_doc(old(self)@),
            r == (old(self)@.history.redo.len() > 0 && len_before(
                old(self)@.history.redo.last().transaction.changes,
            ) == old(self).state.doc@.len()),
            old(self)@.history.redo.len() == 0 ==> *final(self) == *old(self),
            final(self).same_surroundings(old(self)),
            old(self)@.history.redo.len() > 0 ==> {
                let changes = old(self)@.history.redo.last().transaction.changes;
                &&& final(self).syntax_stale == (old(self).syntax_stale || (r && !is_identity(changes)))
                &&& outbox_after(
                    old(self).outbox@,
                    final(self).outbox@,
                    notifies(old(self), changes, r),
                    (old(self).version + 1) as i32,
                    events_of(changes, old(self).state.doc@, 0),
                )
            },
    {
        match self.history.redo() {
            Some(transaction) => {
                self.version = self.version + 1;
                let success = self.apply_inner(&transaction);
                self.changes = ChangeSet::new(&self.state.doc);
                success
            },
            None => false,
        }
    }
}

/// With nothing pending, an edit applied and committed is taken back by one
/// undo, which restores the text and the selection from before the edit;
/// a redo after that restores the text and the selection from after it.
pub proof fn undo_restores_committed_edit(d: Document, tx: Transaction)
    requires
        d.wf(),
        tx.wf(),
        is_identity(d@.changes),
        !is_identity(tx@.changes),
        len_before(tx@.changes) == d@.state.doc.len(),
    ensures
        undo_doc(commit_doc(apply_doc(d@, tx@))).state == d@.state,
        redo_doc(undo_doc(commit_doc(apply_doc(d@, tx@)))).state == apply_doc(d@, tx@).state,
{
    let c = d@.changes;
    let t = tx@.changes;
    let doc = d@.state.doc;
    let k = compose_ops(c, t);
    crate::changeset::lemma_identity_len(c);
    lemma_identity_apply(c, doc);
    lemma_compose_apply(c, t, doc);
    crate::changeset::lemma_compose_shape(c, t);
    crate::changeset::lemma_compose_identity_left(c, t);
    lemma_apply_len(k, doc);
    lemma_invert(k, doc);
    let d1 = apply_doc(d@, tx@);
    let d2 = commit_doc(d1);
    let d3 = undo_doc(d2);
    assert(d2.history.undo.last() == revision_of(
        TransactionModel { changes: k, selection: Some(d1.state.selection) },
        d@.state,
    ));
    assert(d3.history.redo.last() == d2.history.undo.last());
}

/// Two edits applied one after the other, with nothing pending before them,
/// are committed as one revision: one undo restores the text and the
/// selection from before the first, unless together they change nothing.
pub proof fn undo_takes_back_pending_session(d: Document, first: Transaction, second: Transaction)
    requires
        d.wf(),
        first.wf(),
        second.wf(),
        is_identity(d@.changes),
        !is_identity(first@.changes),
        len_before(first@.changes) == d@.state.doc.len(),
        len_before(second@.changes) == apply_doc(d@, first@).state.doc.len(),
        !is_identity(apply_doc(apply_doc(d@, first@), second@).changes),
    ensures
        undo_doc(commit_doc(apply_doc(apply_doc(d@, first@), second@))).state == d@.state,
{
    let c = d@.changes;
    let t1 = first@.changes;
    let t2 = second@.changes;
    let doc = d@.state.doc;
    let d1 = apply_doc(d@, first@);
    let d2 = apply_doc(d1, second@);
    let k1 = compose_ops(c, t1);
    crate::changeset::lemma_identity_len(c);
    lemma_identity_apply(c, doc);
    lemma_compose_apply(c, t1, doc);
    crate::changeset::lemma_compose_shape(c, t1);
    crate::changeset::lemma_compose_identity_left(c, t1);
    lemma_apply_len(k1, doc);
    lemma_apply_len(t1, doc);
    assert(d1.changes == k1);
    assert(d1.old_state == Some(d@.state));
    if is_identity(t2) {
        lemma_identity_apply(t2, d1.state.doc);
        assert(d2.changes == k1);
    } else {
        lemma_compose_apply(k1, t2, doc);
        crate::changeset::lemma_compose_shape(k1, t2);
    }
    let k = d2.changes;
    assert(apply_ops(k, doc) == d2.state.doc);
    assert(len_before(k) == doc.len());
    lemma_apply_len(k, doc);
    lemma_invert(k, doc);
    let d3 = commit_doc(d2);
    assert(d3.history.undo.last() == revision_of(
        TransactionModel { changes: k, selection: Some(d2.state.selection) },
        d@.state,
    ));
}

/// What `url::Url::from_file_path` makes of a path, as the URL's text.
pub uninterp spec fn file_url(path: Seq<char>) -> Option<Seq<char>>;

/// Relies on `url::Url::from_file_path`: the `file:` URL of a path, which
/// depends on the path alone, and none for a path that is not absolute (the
/// empty path among them).
#[verifier::external_body]
fn url_from_file_path(path: &String) -> (r: Option<String>)
    ensures
        match r {
            Some(u) => file_url(path@) == Some(u@),
            None => file_url(path@) is None,
        },
        path@.len() == 0 ==> r is None,
{
    match url::Url::from_file_path(path) {
        Ok(u) => Some(u.into()),
        Err(_) => None,
    }
}

impl Document {
    pub fn set_language_server(&mut self, language_server: bool)
        ensures
            final(self).language_server == language_server,
            final(self)@ == old(self)@,
            final(self).path == old(self).path,
            final(self).language == old(self).language,
            final(self).outbox == old(self).outbox,
    {
        self.language_server = language_server;
    }

    /// Records the language scope; the syntax tree is to be built anew.
    pub fn set_language(&mut self, scope: String)
        ensures
            final(self).language == Some(scope),
            final(self).syntax_stale,
            final(self)@ == old(self)@,
            final(self).path == old(self).path,
            final(self).language_server == old(self).language_server,
            final(self).outbox == old(self).outbox,
    {
        self.language = Some(scope);
        self.syntax_stale = true;
    }

    pub fn set_selection(&mut self, selection: Selection)
        requires
            old(self).wf(),
            selection.wf(),
            selection.within(old(self).state.doc@.len()),
        ensures
            final(self).wf(),
            final(self).state.selection == selection,
            final(self).state.doc == old(self).state.doc,
            final(self).changes == old(self).changes,
            final(self).old_state == old(self).old_state,
            final(self).history == old(self).history,
            final(self).version == old(self).version,
            final(self).same_surroundings(old(self)),
    {
        self.state.selection = selection;
    }

    pub fn mode(&self) -> (r: Mode)
        ensures
            r == self.mode,
    {
        self.mode
    }

    pub fn path(&self) -> (r: Option<&String>)
        ensures
            r == match self.path {
                Some(p) => Some(&p),
                None => None::<&String>,
            },
    {
        match &self.path {
            Some(p) => Some(p),
            None => None,
        }
    }

    /// The `file:` URL of the path; none without a path or for one that is
    /// not absolute.
    pub fn url(&self) -> (r: Option<String>)
        ensures
            match self.path {
                Some(p) => match r {
                    Some(u) => file_url(p@) == Some(u@),
                    None => file_url(p@) is None,
                },
                None => r is None,
            },
    {
        match &self.path {
            Some(p) => url_from_file_path(p),
            None => None,
        }
    }

    pub fn text(&self) -> (r: &Text)
        ensures
            r == &self.state.doc,
    {
        &self.state.doc
    }

    pub fn selection(&self) -> (r: &Selection)
        ensures
            r == &self.state.selection,
    {
        &self.state.selection
    }

    /// The identifier of the document for the language-analysis protocol:
    /// its URL. None where [`Document::url`] gives none.
    pub fn identifier(&self) -> (r: Option<String>)
        ensures
            match self.path {
                Some(p) => match r {
                    Some(u) => file_url(p@) == Some(u@),
                    None => file_url(p@) is None,
                },
                None => r is None,
            },
    {
        self.url()
    }

    /// The identifier together with the current version.
    pub fn versioned_identifier(&self) -> (r: Option<(String, i32)>)
        ensures
            match self.path {
                Some(p) => match r {
                    Some(u) => file_url(p@) == Some(u.0@) && u.1 == self.version,
                    None => file_url(p@) is None,
                },
                None => r is None,
            },
    {
        match self.url() {
            Some(u) => Some((u, self.version)),
            None => None,
        }
    }
}

/// `after` is `before` with one notification more, made at `version` and
/// holding `events`, where `notify` holds; else `after` is `before`.
pub open spec fn outbox_after(
    before: Seq<DidChange>,
    after: Seq<DidChange>,
    notify: bool,
    version: i32,
    events: Seq<ChangeEventModel>,
) -> bool {
    if notify {
        &&& after.len() == before.len() + 1
        &&& after.take(before.len() as int) == before
        &&& after.last().version == version
        &&& after.last().changes@.map_values(|e: ChangeEvent| e@) == events
    } else {
        after == before
    }
}

/// Whether applying `transaction` to `d` with outcome `ok` is told to the
/// language-analysis session.
pub open spec fn notifies(d: &Document, changes: Seq<Op>, ok: bool) -> bool {
    ok && !is_identity(changes) && d.language_server && d.state.doc@.len() <= usize::MAX / 2
}

} // verus!
