//! Structural mutation commands received over the realtime connection.
//!
//! Each command is validated against the version that the client observed and
//! never overwrites newer canonical state. A command is answered in two steps:
//! the first decides the draft of the new node state, the second applies the
//! draft with its hashes and derived records.

use crate::create::NodeMutationDraft;
use crate::lookup::SelectorText;
use crate::model::{Node, NodeId, NodeMetadata};
use crate::mutate::{MutationOutcome, PreparedNodeMutation};
use crate::query::{trim, trimmed};
use crate::reads::{child_named, descend, first_from, next_order, resolved, root_of, NodeSelector};
use crate::realtime::PROTOCOL_VERSION;
use crate::reorder::{child_count, count_children, SiblingHash};
use crate::tables::{SqliteStore, Tables};
use crate::text::{chars_of, share, text_of};
use crate::tree::{below, find, is_forest, lemma_position, links, lookup, unique_ids};
use std::sync::Arc;
use vstd::prelude::*;

verus! {

/// Result of processing one incoming command, sent back as an `ack` or `reject`
/// envelope.
#[derive(Debug)]
pub struct CommandOutcome {
    pub command: String,
    pub ok: bool,
    pub reason: Option<String>,
    pub version: Option<u64>,
    /// Populated only by the answer to a creation, so that the client can select
    /// the new node without having to guess its identity.
    pub node_id: Option<String>,
}

/// The contents of a [`CommandOutcome`].
pub struct OutcomeView {
    pub command: Seq<char>,
    pub ok: bool,
    pub reason: Option<Seq<char>>,
    pub version: Option<u64>,
    pub node_id: Option<Seq<char>>,
}

impl View for CommandOutcome {
    type V = OutcomeView;

    open spec fn view(&self) -> OutcomeView {
        OutcomeView {
            command: self.command@,
            ok: self.ok,
            reason: text_of(self.reason),
            version: self.version,
            node_id: text_of(self.node_id),
        }
    }
}

pub open spec fn acked(command: Seq<char>, version: u64) -> OutcomeView {
    OutcomeView { command, ok: true, reason: None, version: Some(version), node_id: None }
}

pub open spec fn was_created(command: Seq<char>, version: u64, node_id: Seq<char>) -> OutcomeView {
    OutcomeView { command, ok: true, reason: None, version: Some(version), node_id: Some(node_id) }
}

pub open spec fn rejected(command: Seq<char>, reason: Seq<char>) -> OutcomeView {
    OutcomeView { command, ok: false, reason: Some(reason), version: None, node_id: None }
}

pub open spec fn was_removed(command: Seq<char>) -> OutcomeView {
    OutcomeView { command, ok: true, reason: None, version: None, node_id: None }
}

impl CommandOutcome {
    /// The command was applied; the node now has the version.
    pub fn ack(command: &str, version: u64) -> (outcome: CommandOutcome)
        ensures
            outcome@ == acked(command@, version),
    {
        CommandOutcome {
            command: command.to_owned(),
            ok: true,
            reason: None,
            version: Some(version),
            node_id: None,
        }
    }

    /// The command created a node.
    pub fn created(command: &str, version: u64, node_id: String) -> (outcome: CommandOutcome)
        ensures
            outcome@ == was_created(command@, version, node_id@),
    {
        CommandOutcome {
            command: command.to_owned(),
            ok: true,
            reason: None,
            version: Some(version),
            node_id: Some(node_id),
        }
    }

    /// The command was refused.
    pub fn reject(command: &str, reason: String) -> (outcome: CommandOutcome)
        ensures
            outcome@ == rejected(command@, reason@),
    {
        CommandOutcome {
            command: command.to_owned(),
            ok: false,
            reason: Some(reason),
            version: None,
            node_id: None,
        }
    }

    /// The node is gone, so there is no new version of it to report.
    pub fn removed(command: &str) -> (outcome: CommandOutcome)
        ensures
            outcome@ == was_removed(command@),
    {
        CommandOutcome {
            command: command.to_owned(),
            ok: true,
            reason: None,
            version: None,
            node_id: None,
        }
    }
}

/// The commands of the protocol.
#[derive(Clone, Copy, Debug, PartialEq, Eq, Structural)]
pub enum CommandName {
    ReorderNode,
    MoveSubtree,
    UpdateNode,
    CreateNode,
    RemoveNode,
    /// A name that the server does not know.
    Unknown,
}

/// The command with the name.
pub open spec fn named_command(name: Seq<char>) -> CommandName {
    if name == "reorder_node"@ {
        CommandName::ReorderNode
    } else if name == "move_subtree"@ {
        CommandName::MoveSubtree
    } else if name == "update_node"@ {
        CommandName::UpdateNode
    } else if name == "create_node"@ {
        CommandName::CreateNode
    } else if name == "remove_node"@ {
        CommandName::RemoveNode
    } else {
        CommandName::Unknown
    }
}

/// Tells which command an envelope carries. An envelope of another protocol version
/// or kind, or without the name of a command, is not answered at all.
pub fn read_command(version: u32, kind: &String, command: &Option<String>) -> (name: Option<
    CommandName,
>)
    ensures
        name == match text_of(*command) {
            Some(text) => if version == PROTOCOL_VERSION && kind@ == "command"@ {
                Some(named_command(text))
            } else {
                None
            },
            None => None,
        },
{
    if version != PROTOCOL_VERSION || *kind != "command".to_owned() {
        return None;
    }
    match command {
        None => None,
        Some(text) => Some(
            if *text == "reorder_node".to_owned() {
                CommandName::ReorderNode
            } else if *text == "move_subtree".to_owned() {
                CommandName::MoveSubtree
            } else if *text == "update_node".to_owned() {
                CommandName::UpdateNode
            } else if *text == "create_node".to_owned() {
                CommandName::CreateNode
            } else if *text == "remove_node".to_owned() {
                CommandName::RemoveNode
            } else {
                CommandName::Unknown
            },
        ),
    }
}

/// Answers a command that the server does not know.
pub fn reject_unknown(command: &str) -> (outcome: CommandOutcome)
    ensures
        outcome@ == rejected(command@, "unknown command"@),
{
    CommandOutcome::reject(command, "unknown command".to_owned())
}

/// The contents of a [`NodeMutationDraft`].
pub struct DraftView {
    pub id: NodeId,
    pub parent_id: Option<NodeId>,
    pub slug: Seq<char>,
    pub metadata: NodeMetadata,
    pub markdown_content: Seq<char>,
    pub sibling_order: u32,
    pub version: u64,
    pub created_at: u64,
    pub updated_at: u64,
    pub created_by: Option<Seq<char>>,
    pub change_summary: Option<Seq<char>>,
}

impl View for NodeMutationDraft {
    type V = DraftView;

    open spec fn view(&self) -> DraftView {
        DraftView {
            id: self.id,
            parent_id: self.parent_id,
            slug: self.slug@,
            metadata: *self.metadata,
            markdown_content: self.markdown_content@,
            sibling_order: self.sibling_order,
            version: self.version,
            created_at: self.created_at,
            updated_at: self.updated_at,
            created_by: text_of(self.created_by),
            change_summary: text_of(self.change_summary),
        }
    }
}

/// The next state of a node with nothing changed but its version and date.
pub open spec fn next_draft(node: Node, now: u64, summary: Seq<char>) -> DraftView {
    DraftView {
        id: node.id,
        parent_id: node.parent_id,
        slug: node.slug@,
        metadata: *node.metadata,
        markdown_content: node.markdown_content@,
        sibling_order: node.sibling_order,
        version: (node.version + 1) as u64,
        created_at: node.created_at,
        updated_at: now,
        created_by: None,
        change_summary: Some(summary),
    }
}

fn draft_next(node: &Node, now: u64, summary: &str) -> (draft: NodeMutationDraft)
    requires
        node.version < u64::MAX,
    ensures
        draft@ == next_draft(*node, now, summary@),
{
    NodeMutationDraft {
        id: node.id,
        parent_id: node.parent_id,
        slug: node.slug.clone(),
        metadata: share(&node.metadata),
        markdown_content: node.markdown_content.clone(),
        sibling_order: node.sibling_order,
        version: node.version + 1,
        created_at: node.created_at,
        updated_at: now,
        created_by: None,
        change_summary: Some(summary.to_owned()),
    }
}

/// The node that a command speaks of, or why there is none.
pub open spec fn selected(nodes: Seq<Node>, selector: SelectorText, missing: Seq<char>) -> Result<
    Node,
    Seq<char>,
> {
    match selector.parsed {
        Err(message) => Err(message@),
        Ok(s) => match resolved(nodes, s) {
            Ok(Some(node)) => Ok(node),
            Ok(None) => Err(missing),
            Err(e) => Err(e.message()),
        },
    }
}

pub proof fn lemma_first_from<T>(items: Seq<T>, pred: spec_fn(T) -> bool, i: int)
    requires
        0 <= i,
    ensures
        first_from(items, pred, i) matches Some(k) ==> i <= k < items.len() && pred(items[k]),
    decreases items.len() - i,
{
    if i < items.len() && !pred(items[i]) {
        lemma_first_from(items, pred, i + 1);
    }
}

proof fn lemma_descend(nodes: Seq<Node>, from: Node, path: Seq<String>, k: int)
    requires
        nodes.contains(from),
    ensures
        descend(nodes, from, path, k) matches Some(n) ==> nodes.contains(n),
    decreases path.len() - k,
{
    if k < path.len() {
        let pred = crate::reads::is_child_named(from.id, path[k]@);
        lemma_first_from(nodes, pred, 0);
        match child_named(nodes, from.id, path[k]@) {
            Some(next) => {
                assert(nodes.contains(next));
                lemma_descend(nodes, next, path, k + 1);
            },
            None => {},
        }
    }
}

/// A selector names a node of the workspace.
pub proof fn lemma_resolved(nodes: Seq<Node>, selector: NodeSelector)
    requires
        unique_ids(nodes),
    ensures
        resolved(nodes, selector) matches Ok(Some(n)) ==> nodes.contains(n),
{
    match selector {
        NodeSelector::Id(id) => {},
        NodeSelector::Slug(slug) => {
            lemma_first_from(nodes, |n: Node| n.slug@ == slug@, 0);
        },
        NodeSelector::Path(path) => {
            lemma_first_from(nodes, |n: Node| n.parent_id is None, 0);
            match root_of(nodes) {
                Some(root) => {
                    assert(nodes.contains(root));
                    lemma_descend(nodes, root, path@, 0);
                    lemma_descend(nodes, root, path@, 1);
                },
                None => {},
            }
        },
    }
}

/// The answer to a client that saw an older version of the node.
pub open spec fn drag_conflict() -> Seq<char> {
    "version conflict: the node changed since the drag began"@
}

/// The answer to an editor that saw an older version of the node.
pub open spec fn edit_conflict() -> Seq<char> {
    "version conflict: the node changed since editing began"@
}

/// A requested position, no higher than that of the last sibling.
pub open spec fn clamped_order(order: u32, siblings: nat) -> u32 {
    let last: nat = if siblings == 0 {
        0
    } else {
        (siblings - 1) as nat
    };
    if order > last {
        last as u32
    } else {
        order
    }
}

/// The draft of a reordering, or the reason to reject it.
pub open spec fn reorder_draft(
    nodes: Seq<Node>,
    selector: SelectorText,
    sibling_order: u32,
    expected_version: u64,
    now: u64,
) -> Result<DraftView, Seq<char>> {
    match selected(nodes, selector, "node not found"@) {
        Err(reason) => Err(reason),
        Ok(node) => match node.parent_id {
            None => Err("workspace root cannot be reordered"@),
            Some(parent) => if node.version != expected_version {
                Err(drag_conflict())
            } else {
                Ok(
                    DraftView {
                        sibling_order: clamped_order(
                            sibling_order,
                            child_count(nodes, parent, nodes.len() as int),
                        ),
                        ..next_draft(node, now, "Reorder node via browse-ui"@)
                    },
                )
            },
        },
    }
}

/// The node that a move takes and the parent that it goes below, or the reason to
/// reject the move.
pub open spec fn move_target(
    nodes: Seq<Node>,
    selector: SelectorText,
    new_parent: SelectorText,
    expected_version: u64,
) -> Result<(Node, NodeId), Seq<char>> {
    match selected(nodes, selector, "node not found"@) {
        Err(reason) => Err(reason),
        Ok(node) => if node.parent_id is None {
            Err("workspace root cannot be moved"@)
        } else if node.version != expected_version {
            Err(drag_conflict())
        } else {
            match selected(nodes, new_parent, "destination parent not found"@) {
                Err(reason) => Err(reason),
                Ok(parent) => if parent.id == node.id {
                    Err("cannot move a node below itself"@)
                } else if below(links(nodes), node.id, parent.id) {
                    Err("cannot move a node below its own subtree"@)
                } else {
                    Ok((node, parent.id))
                },
            }
        },
    }
}

/// The draft of a move of a node below a parent under a slug.
pub open spec fn move_draft(
    nodes: Seq<Node>,
    node: Node,
    parent: NodeId,
    slug: Seq<char>,
    now: u64,
) -> DraftView {
    DraftView {
        parent_id: Some(parent),
        slug,
        sibling_order: next_order(nodes, parent),
        ..next_draft(node, now, "Move subtree via browse-ui"@)
    }
}

/// The draft of an edit, or the reason to reject it. Only the Markdown body is
/// replaced.
pub open spec fn update_draft(
    nodes: Seq<Node>,
    selector: SelectorText,
    content: Seq<char>,
    expected_version: u64,
    now: u64,
) -> Result<DraftView, Seq<char>> {
    match selected(nodes, selector, "node not found"@) {
        Err(reason) => Err(reason),
        Ok(node) => if node.version != expected_version {
            Err(edit_conflict())
        } else {
            Ok(
                DraftView {
                    markdown_content: content,
                    ..next_draft(node, now, "Edit node content via browse-ui"@)
                },
            )
        },
    }
}

/// The slug that a creation asks for: the text without white space at its ends,
/// if anything is left.
pub open spec fn wanted_slug(slug: Option<Seq<char>>) -> Option<Seq<char>> {
    match slug {
        Some(text) => if trimmed(text).len() > 0 {
            Some(trimmed(text))
        } else {
            None
        },
        None => None,
    }
}

/// Reads the slug that a creation asks for.
pub fn requested_slug(slug: &Option<String>) -> (wanted: Option<String>)
    ensures
        text_of(wanted) == wanted_slug(text_of(*slug)),
{
    match slug {
        None => None,
        Some(text) => {
            let rest = trim(text.as_str());
            if chars_of(rest.as_str()).len() > 0 {
                Some(rest)
            } else {
                None
            }
        },
    }
}

/// Where the slug of a new node comes from.
#[derive(Debug)]
pub enum SlugChoice {
    /// Asked for by the user, as it was read or why it cannot be.
    Requested(Result<String, String>),
    /// Made from the title and free among the siblings.
    Generated(String),
}

/// The slug of a new node, or the reason to reject it.
pub open spec fn chosen_slug(nodes: Seq<Node>, parent: NodeId, choice: SlugChoice) -> Result<
    Seq<char>,
    Seq<char>,
> {
    match choice {
        SlugChoice::Generated(slug) => Ok(slug@),
        SlugChoice::Requested(Err(message)) => Err(message@),
        SlugChoice::Requested(Ok(slug)) => if child_named(nodes, parent, slug@) is Some {
            Err("slug \""@ + slug@ + "\" is already used by a sibling"@)
        } else {
            Ok(slug@)
        },
    }
}

/// The body of a new node: the given one, or the title as a heading.
pub open spec fn initial_content(content: Option<Seq<char>>, title: Seq<char>) -> Seq<char> {
    match content {
        Some(text) => text,
        None => "# "@ + title + "\n"@,
    }
}

/// The draft of a creation, or the reason to reject it.
pub open spec fn create_draft(
    nodes: Seq<Node>,
    parent: NodeId,
    choice: SlugChoice,
    id: NodeId,
    metadata: NodeMetadata,
    content: Option<Seq<char>>,
    now: u64,
) -> Result<DraftView, Seq<char>> {
    match chosen_slug(nodes, parent, choice) {
        Err(reason) => Err(reason),
        Ok(slug) => Ok(
            DraftView {
                id,
                parent_id: Some(parent),
                slug,
                metadata,
                markdown_content: initial_content(content, metadata.title@),
                sibling_order: next_order(nodes, parent),
                version: 1,
                created_at: now,
                updated_at: now,
                created_by: None,
                change_summary: Some("Create node via browse-ui"@),
            },
        ),
    }
}

/// Whether the answer is the draft, or the rejection for the reason.
pub open spec fn answers_draft(
    result: Result<NodeMutationDraft, CommandOutcome>,
    command: Seq<char>,
    expected: Result<DraftView, Seq<char>>,
) -> bool {
    match expected {
        Ok(draft) => result is Ok && result->Ok_0@ == draft,
        Err(reason) => result is Err && result->Err_0@ == rejected(command, reason),
    }
}

impl SqliteStore {
    fn select(&self, selector: &SelectorText, missing: &str) -> (result: Result<Node, String>)
        requires
            unique_ids(self@.nodes),
        ensures
            match selected(self@.nodes, *selector, missing@) {
                Ok(node) => result == Ok::<Node, String>(node) && self@.nodes.contains(node),
                Err(reason) => result is Err && result->Err_0@ == reason,
            },
    {
        match &selector.parsed {
            Err(message) => Err(message.clone()),
            Ok(s) => {
                proof {
                    lemma_resolved(self@.nodes, *s);
                }
                match self.resolve(s) {
                    Ok(Some(node)) => Ok(node),
                    Ok(None) => Err(missing.to_owned()),
                    Err(e) => Err(e.message()),
                }
            },
        }
    }

    /// Decides a reordering. Positions are zero-based; one past the last sibling
    /// means the last.
    pub fn plan_reorder_command(
        &self,
        selector: &SelectorText,
        sibling_order: u32,
        expected_version: u64,
        now: u64,
    ) -> (result: Result<NodeMutationDraft, CommandOutcome>)
        requires
            unique_ids(self@.nodes),
            self@.bounded_versions(),
        ensures
            answers_draft(
                result,
                "reorder_node"@,
                reorder_draft(self@.nodes, *selector, sibling_order, expected_version, now),
            ),
    {
        let node = match self.select(selector, "node not found") {
            Ok(node) => node,
            Err(reason) => {
                return Err(CommandOutcome::reject("reorder_node", reason));
            },
        };
        let parent = match node.parent_id {
            Some(parent) => parent,
            None => {
                return Err(
                    CommandOutcome::reject(
                        "reorder_node",
                        "workspace root cannot be reordered".to_owned(),
                    ),
                );
            },
        };
        if node.version != expected_version {
            return Err(
                CommandOutcome::reject(
                    "reorder_node",
                    "version conflict: the node changed since the drag began".to_owned(),
                ),
            );
        }
        let siblings: usize = count_children(&self.nodes, parent);
        let last: usize = siblings.saturating_sub(1);
        let order: u32 = if sibling_order as usize > last {
            last as u32
        } else {
            sibling_order
        };
        let mut draft = draft_next(&node, now, "Reorder node via browse-ui");
        draft.sibling_order = order;
        Ok(draft)
    }

    /// Applies a decided reordering.
    pub fn finish_reorder_command(
        &mut self,
        prepared: &PreparedNodeMutation,
        expected_version: u64,
        hashes: &Vec<SiblingHash>,
    ) -> (outcome: CommandOutcome)
        requires
            unique_ids(old(self)@.nodes),
            old(self)@.bounded_versions(),
        ensures
            match old(self)@.reorder(
                prepared.node,
                expected_version,
                prepared.revision@,
                prepared.derived,
                hashes@,
            ) {
                Ok((t, _)) => outcome@ == acked("reorder_node"@, prepared.node.version)
                    && final(self)@ == t,
                Err(e) => outcome@ == rejected("reorder_node"@, e.message()) && final(self)@ == old(
                    self,
                )@,
            },
    {
        match self.reorder_node(prepared.change(expected_version), hashes) {
            Ok(_) => CommandOutcome::ack("reorder_node", prepared.node.version),
            Err(e) => CommandOutcome::reject("reorder_node", e.message()),
        }
    }

    /// Decides which node a move takes and where it goes.
    pub fn plan_move_command(
        &self,
        selector: &SelectorText,
        new_parent: &SelectorText,
        expected_version: u64,
    ) -> (result: Result<(Node, NodeId), CommandOutcome>)
        requires
            is_forest(self@.nodes),
        ensures
            match move_target(self@.nodes, *selector, *new_parent, expected_version) {
                Ok((node, parent)) => result == Ok::<(Node, NodeId), CommandOutcome>((node, parent))
                    && self@.nodes.contains(node),
                Err(reason) => result is Err && result->Err_0@ == rejected("move_subtree"@, reason),
            },
    {
        let node = match self.select(selector, "node not found") {
            Ok(node) => node,
            Err(reason) => {
                return Err(CommandOutcome::reject("move_subtree", reason));
            },
        };
        if node.is_root() {
            return Err(
                CommandOutcome::reject("move_subtree", "workspace root cannot be moved".to_owned()),
            );
        }
        if node.version != expected_version {
            return Err(
                CommandOutcome::reject(
                    "move_subtree",
                    "version conflict: the node changed since the drag began".to_owned(),
                ),
            );
        }
        let parent = match self.select(new_parent, "destination parent not found") {
            Ok(parent) => parent,
            Err(reason) => {
                return Err(CommandOutcome::reject("move_subtree", reason));
            },
        };
        if parent.id == node.id {
            return Err(
                CommandOutcome::reject("move_subtree", "cannot move a node below itself".to_owned()),
            );
        }
        proof {
            let i = self@.nodes.index_of(parent);
            lemma_position(self@.nodes, i);
        }
        let inside: bool = match find(&self.nodes, parent.id) {
            Some(i) => crate::edits::is_below(&self.nodes, node.id, i),
            None => false,
        };
        if inside {
            return Err(
                CommandOutcome::reject(
                    "move_subtree",
                    "cannot move a node below its own subtree".to_owned(),
                ),
            );
        }
        Ok((node, parent.id))
    }

    /// Drafts a decided move under a slug that is free below the new parent.
    pub fn draft_move_command(&self, node: &Node, parent: NodeId, slug: String, now: u64) -> (draft:
        NodeMutationDraft)
        requires
            self@.bounded_versions(),
            self@.nodes.contains(*node),
        ensures
            draft@ == move_draft(self@.nodes, *node, parent, slug@, now),
    {
        let mut draft = draft_next(node, now, "Move subtree via browse-ui");
        draft.parent_id = Some(parent);
        draft.slug = slug;
        draft.sibling_order = self.next_child_order(parent);
        draft
    }

    /// Applies a decided move.
    pub fn finish_move_command(
        &mut self,
        prepared: &PreparedNodeMutation,
        expected_version: u64,
    ) -> (outcome: CommandOutcome)
        requires
            is_forest(old(self)@.nodes),
        ensures
            match old(self)@.move_node(
                prepared.node,
                expected_version,
                prepared.revision@,
                prepared.derived,
            ) {
                Ok((t, _)) => outcome@ == acked("move_subtree"@, prepared.node.version)
                    && final(self)@ == t,
                Err(e) => outcome@ == rejected("move_subtree"@, e.message()) && final(self)@ == old(
                    self,
                )@,
            },
    {
        match self.move_subtree(prepared.change(expected_version)) {
            Ok(_) => CommandOutcome::ack("move_subtree", prepared.node.version),
            Err(e) => CommandOutcome::reject("move_subtree", e.message()),
        }
    }

    /// Decides an edit of a node's body.
    pub fn plan_update_command(
        &self,
        selector: &SelectorText,
        content: String,
        expected_version: u64,
        now: u64,
    ) -> (result: Result<NodeMutationDraft, CommandOutcome>)
        requires
            unique_ids(self@.nodes),
            self@.bounded_versions(),
        ensures
            answers_draft(
                result,
                "update_node"@,
                update_draft(self@.nodes, *selector, content@, expected_version, now),
            ),
    {
        let node = match self.select(selector, "node not found") {
            Ok(node) => node,
            Err(reason) => {
                return Err(CommandOutcome::reject("update_node", reason));
            },
        };
        if node.version != expected_version {
            return Err(
                CommandOutcome::reject(
                    "update_node",
                    "version conflict: the node changed since editing began".to_owned(),
                ),
            );
        }
        let mut draft = draft_next(&node, now, "Edit node content via browse-ui");
        draft.markdown_content = content;
        Ok(draft)
    }

    /// Applies a decided edit. Saving identical content leaves the persisted
    /// version unchanged, so that unchanged version is reported.
    pub fn finish_update_command(
        &mut self,
        prepared: &PreparedNodeMutation,
        expected_version: u64,
    ) -> (outcome: CommandOutcome)
        requires
            unique_ids(old(self)@.nodes),
        ensures
            match old(self)@.replace(
                prepared.node,
                expected_version,
                prepared.revision@,
                prepared.derived,
            ) {
                Ok((t, MutationOutcome::Applied)) => outcome@ == acked(
                    "update_node"@,
                    prepared.node.version,
                ) && final(self)@ == t,
                Ok((t, MutationOutcome::NoOp)) => outcome@ == acked("update_node"@, expected_version)
                    && final(self)@ == t,
                Err(e) => outcome@ == rejected("update_node"@, e.message()) && final(self)@ == old(
                    self,
                )@,
            },
    {
        match self.update_node(prepared.change(expected_version)) {
            Ok(MutationOutcome::Applied) => CommandOutcome::ack(
                "update_node",
                prepared.node.version,
            ),
            Ok(MutationOutcome::NoOp) => CommandOutcome::ack("update_node", expected_version),
            Err(e) => CommandOutcome::reject("update_node", e.message()),
        }
    }

    /// Decides the parent of a new node.
    pub fn plan_create_command(&self, parent: &SelectorText) -> (result: Result<
        NodeId,
        CommandOutcome,
    >)
        requires
            unique_ids(self@.nodes),
        ensures
            match selected(self@.nodes, *parent, "parent not found"@) {
                Ok(node) => result == Ok::<NodeId, CommandOutcome>(node.id),
                Err(reason) => result is Err && result->Err_0@ == rejected("create_node"@, reason),
            },
    {
        match self.select(parent, "parent not found") {
            Ok(node) => Ok(node.id),
            Err(reason) => Err(CommandOutcome::reject("create_node", reason)),
        }
    }

    /// Drafts a new node below a parent. A slug that the user asked for must not
    /// collide with a sibling's.
    pub fn draft_create_command(
        &self,
        parent: NodeId,
        choice: SlugChoice,
        id: NodeId,
        metadata: Arc<NodeMetadata>,
        content: Option<String>,
        now: u64,
    ) -> (result: Result<NodeMutationDraft, CommandOutcome>)
        ensures
            answers_draft(
                result,
                "create_node"@,
                create_draft(
                    self@.nodes,
                    parent,
                    choice,
                    id,
                    *metadata,
                    text_of(content),
                    now,
                ),
            ),
    {
        let slug = match choice {
            SlugChoice::Generated(slug) => slug,
            SlugChoice::Requested(Err(message)) => {
                return Err(CommandOutcome::reject("create_node", message));
            },
            SlugChoice::Requested(Ok(slug)) => {
                if self.has_child_named(parent, &slug) {
                    let mut reason = "slug \"".to_owned();
                    reason.push_str(slug.as_str());
                    reason.push_str("\" is already used by a sibling");
                    return Err(CommandOutcome::reject("create_node", reason));
                }
                slug
            },
        };
        let markdown_content: String = match content {
            Some(text) => text,
            None => {
                let mut text = "# ".to_owned();
                text.push_str(metadata.title.as_str());
                text.push_str("\n");
                text
            },
        };
        Ok(
            NodeMutationDraft {
                id,
                parent_id: Some(parent),
                slug,
                metadata,
                markdown_content,
                sibling_order: self.next_child_order(parent),
                version: 1,
                created_at: now,
                updated_at: now,
                created_by: None,
                change_summary: Some("Create node via browse-ui".to_owned()),
            },
        )
    }

    /// Applies a decided creation.
    pub fn finish_create_command(&mut self, prepared: PreparedNodeMutation) -> (outcome:
        CommandOutcome)
        requires
            unique_ids(old(self)@.nodes),
        ensures
            match old(self)@.create(seq![prepared]) {
                Ok(t) => outcome@ == was_created(
                    "create_node"@,
                    prepared.node.version,
                    prepared.node.id.text(),
                ) && final(self)@ == t,
                Err(e) => outcome@ == rejected("create_node"@, e.message()) && final(self)@ == old(
                    self,
                )@,
            },
    {
        let version: u64 = prepared.node.version;
        let id = prepared.node.id;
        match self.create_node(prepared) {
            Ok(()) => CommandOutcome::created("create_node", version, id.to_text()),
            Err(e) => CommandOutcome::reject("create_node", e.message()),
        }
    }

    /// Removes a node with its subtree.
    pub fn remove_command(&mut self, selector: &SelectorText, expected_version: u64) -> (outcome:
        CommandOutcome)
        requires
            unique_ids(old(self)@.nodes),
        ensures
            match selected(old(self)@.nodes, *selector, "node not found"@) {
                Err(reason) => outcome@ == rejected("remove_node"@, reason) && final(self)@ == old(
                    self,
                )@,
                Ok(node) => match old(self)@.removal_check(node.id, expected_version) {
                    Some(e) => outcome@ == rejected("remove_node"@, e.message()) && final(self)@
                        == old(self)@,
                    None => outcome@ == was_removed("remove_node"@) && final(self)@ == old(
                        self,
                    )@.remove_below(node.id).advanced(),
                },
            },
    {
        let node = match self.select(selector, "node not found") {
            Ok(node) => node,
            Err(reason) => {
                return CommandOutcome::reject("remove_node", reason);
            },
        };
        match self.remove_subtree(node.id, expected_version, false) {
            Ok(_) => CommandOutcome::removed("remove_node"),
            Err(e) => CommandOutcome::reject("remove_node", e.message()),
        }
    }
}

/// A client that saw an older version of a node cannot reorder, move, edit or
/// remove it.
pub proof fn law_stale_command_is_rejected(
    t: Tables,
    selector: SelectorText,
    new_parent: SelectorText,
    order: u32,
    content: Seq<char>,
    expected_version: u64,
    now: u64,
)
    requires
        unique_ids(t.nodes),
        selected(t.nodes, selector, "node not found"@) is Ok,
        selected(t.nodes, selector, "node not found"@)->Ok_0.version != expected_version,
    ensures
        reorder_draft(t.nodes, selector, order, expected_version, now) is Err,
        move_target(t.nodes, selector, new_parent, expected_version) is Err,
        update_draft(t.nodes, selector, content, expected_version, now) is Err,
        t.removal_check(
            selected(t.nodes, selector, "node not found"@)->Ok_0.id,
            expected_version,
        ) is Some,
{
    let node = selected(t.nodes, selector, "node not found"@)->Ok_0;
    lemma_resolved(t.nodes, selector.parsed->Ok_0);
    let i = t.nodes.index_of(node);
    lemma_position(t.nodes, i);
    assert(lookup(t.nodes, node.id) == Some(node));
}

} // verus!
