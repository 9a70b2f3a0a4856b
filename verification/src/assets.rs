//! The embedded front end: a page, its script and its style sheet, served as they
//! are.

use vstd::prelude::*;

verus! {

/// The page.
pub const PAGE: &'static str = r##"<!doctype html>
<html lang="en">
<head>
<meta charset="utf-8">
<meta name="viewport" content="width=device-width, initial-scale=1">
<title>MDTree</title>
<link rel="stylesheet" href="/style.css">
</head>
<body>
<header>
  <h1>MDTree <small id="server-version"></small></h1>
  <input id="search" type="search" autocomplete="off" placeholder="Search: text, workspace:, slug:, text:">
  <ul id="search-results" hidden></ul>
  <button id="help" type="button" title="Keyboard shortcuts">?</button>
  <button id="stop" type="button" title="Stop the server">Stop</button>
</header>
<main>
  <nav id="workspaces" aria-label="Workspaces"></nav>
  <section id="canvas" aria-label="Tree">
    <svg id="links" aria-hidden="true"></svg>
    <div id="cards"></div>
    <ul id="legend" aria-label="Relations"></ul>
  </section>
  <article id="markdown" hidden>
    <div id="preview"></div>
    <form id="editor" hidden>
      <textarea id="editor-text" spellcheck="true"></textarea>
      <button type="submit">Save</button>
      <button type="button" id="editor-cancel">Cancel</button>
    </form>
  </article>
</main>
<dialog id="shortcuts">
  <table>
    <tr><td>Arrow keys</td><td>Move the selection along the tree</td></tr>
    <tr><td>Space / Enter</td><td>Expand or collapse the selected node</td></tr>
    <tr><td>V</td><td>Show/hide the Markdown preview pane</td></tr>
    <tr><td>C</td><td>Copy selected node path</td></tr>
    <tr><td>N</td><td>Create a child of the selected node</td></tr>
    <tr><td>E</td><td>Edit the selected node</td></tr>
    <tr><td>Delete</td><td>Remove the selected node with its subtree</td></tr>
    <tr><td>/</td><td>Search</td></tr>
  </table>
  <form method="dialog"><button>Close</button></form>
</dialog>
<p id="status" role="status"></p>
<script src="/app.js"></script>
</body>
</html>
"##;

/// The script of the page, part 1 of 7.
pub const SCRIPT_1: &'static str = r##""use strict";

const CARD_WIDTH = 220;
const CARD_HEIGHT = 52;
const COLUMN_GAP = 70;
const SLOT_GAP = 18;
const DOT_SIZE = 8;
const DOT_GAP = 6;
const CARD_PADDING = 20;
const RELATIONS_DOTS_PER_ROW = Math.floor((CARD_WIDTH - CARD_PADDING + DOT_GAP) / (DOT_SIZE + DOT_GAP));
const DOUBLE_CLICK_MS = 400;
const DRAG_THRESHOLD = 5;
const RECONNECT_MS = 2000;

const byId = (id) => document.getElementById(id);
const canvas = byId("canvas");
const cards = byId("cards");
const links = byId("links");
const searchInput = byId("search");
const searchResults = byId("search-results");

let credential = "";
let workspaces = [];
let state = null;
let lastCardClick = null;
let press = null;
let highlightedResultIndex = -1;
let searchTimer = 0;

function newWorkspace(summary) {
  return {
    id: summary.id,
    name: summary.name,
    root: summary.root,
    relationTypes: summary.relation_types,
    nodes: new Map(),
    parents: new Map(),
    expanded: new Set(),
    stale: new Set(),
    selected: summary.root,
    pan: { x: 40, y: 40 },
    pending: [],
    suppressNextChangeSweeps: 0,
    socket: null,
    layout: new Map(),
  };
}

function reportError(error) {
  byId("status").textContent = error && error.message ? error.message : String(error);
}

async function getJson(path) {
  const response = await fetch(path);
  if (!response.ok) {
    throw new Error(await response.text());
  }
  return response.json();
}

function nodePath(id, suffix) {
  return `/api/${state.id}/node/${encodeURIComponent(id)}${suffix || ""}`;
}

async function loadNode(id) {
  const workspace = state;
  const node = await getJson(nodePath(id));
  workspace.nodes.set(node.id, node);
  workspace.stale.delete(node.id);
  for (const child of node.children) {
    workspace.parents.set(child.id, node.id);
  }
  return node;
}

function summaryForNode(id) {
  const loaded = state.nodes.get(id);
  if (loaded) {
    return loaded;
  }
  const parent = state.nodes.get(state.parents.get(id));
  return parent ? parent.children.find((child) => child.id === id) : undefined;
}

function visibleChildren(id) {
  const node = state.nodes.get(id);
  return node && state.expanded.has(id) ? node.children : [];
}

function relationColor(name) {
  let hash = 0;
  for (const character of name) {
    hash = (hash * 31 + character.codePointAt(0)) % 360;
  }
  return `hsl(${hash} 65% 50%)`;
}

function relationsRowCount(node) {
  return Math.ceil(node.references.length / RELATIONS_DOTS_PER_ROW);
}

function cardHeight(node) {
  return CARD_HEIGHT + relationsRowCount(node) * (DOT_SIZE + DOT_GAP);
}

function ownExtent(node) {
  return cardHeight(node) / 2;
}

function childOffsets(node) {
  const offsets = [];
  let previousY = 0;
  let previousChild = null;
  for (const child of visibleChildren(node.id).map((item) => summaryForNode(item.id))) {
    const y = previousChild
      ? previousY + bottomExtent(previousChild) + SLOT_GAP + topExtent(child)
      : 0;
    offsets.push({ child, y });
    previousY = y;
    previousChild = child;
  }
  const middle = previousY / 2;
  return offsets.map(({ child, y }) => ({ child, y: y - middle }));
}

function topExtent(node) {
  const offsets = childOffsets(node);
  const first = offsets[0];
  return first ? Math.max(ownExtent(node), topExtent(first.child) - first.y) : ownExtent(node);
}

"##;

/// The script of the page, part 2 of 7.
pub const SCRIPT_2: &'static str = r##"function bottomExtent(node) {
  const offsets = childOffsets(node);
  const last = offsets[offsets.length - 1];
  return last ? Math.max(ownExtent(node), bottomExtent(last.child) + last.y) : ownExtent(node);
}

function place(node, x, y, layout) {
  layout.set(node.id, { node, x, y });
  for (const { child, y: offset } of childOffsets(node)) {
    place(child, x + CARD_WIDTH + COLUMN_GAP, y + offset, layout);
  }
}

function render() {
  const root = summaryForNode(state.root);
  if (!root) {
    return;
  }
  const layout = new Map();
  place(root, 0, topExtent(root), layout);
  state.layout = layout;
  cards.replaceChildren();
  links.replaceChildren();
  for (const { node, x, y } of layout.values()) {
    cards.appendChild(buildCard(node, x, y));
    const parent = layout.get(state.parents.get(node.id));
    if (parent) {
      links.appendChild(buildLink(parent, { x, y }));
    }
  }
  applyPan();
  renderLegend();
}

function buildLink(from, to) {
  const path = document.createElementNS("http://www.w3.org/2000/svg", "path");
  const startX = from.x + CARD_WIDTH;
  const bend = startX + COLUMN_GAP / 2;
  path.setAttribute("d", `M ${startX} ${from.y} C ${bend} ${from.y} ${bend} ${to.y} ${to.x} ${to.y}`);
  return path;
}

function buildCard(node, x, y) {
  const card = document.createElement("div");
  card.className = "node-card";
  card.dataset.id = node.id;
  card.classList.toggle("selected", node.id === state.selected);
  card.classList.toggle("stale", state.stale.has(node.id));
  card.style.left = `${x}px`;
  card.style.top = `${y - ownExtent(node)}px`;
  const title = document.createElement("h2");
  title.textContent = node.title;
  title.title = node.path;
  const count = document.createElement("small");
  count.textContent = node.children_count > 0 ? `${node.children_count} children` : "";
  card.append(title, count, buildActions(node));
  if (node.references.length > 0) {
    card.appendChild(buildRelations(node));
  }
  return card;
}

function buildActions(node) {
  const actions = document.createElement("div");
  actions.className = "node-card-actions";
  const reload = document.createElement("button");
  reload.className = "node-card-reload";
  reload.textContent = "\u21bb";
  reload.title = "Reload";
  reload.addEventListener("click", (event) => {
    event.stopPropagation();
    loadNode(node.id).then(render).catch(reportError);
  });
  const moreButton = document.createElement("button");
  moreButton.textContent = "\u22ef";
  moreButton.title = "More actions";
  moreButton.addEventListener("click", (event) => {
    event.stopPropagation();
    setSelected(node.id);
    const title = window.prompt("Title of the new child");
    if (title) {
      requestCreateChild(node.id, title);
    }
  });
  actions.appendChild(reload);
  actions.appendChild(moreButton);
  return actions;
}

"##;

/// The script of the page, part 3 of 7.
pub const SCRIPT_3: &'static str = r##"function buildRelations(node) {
  const relationsRow = document.createElement("div");
  relationsRow.className = "flex flex-wrap items-center gap-1.5";
  for (const reference of node.references) {
    const dot = document.createElement("span");
    dot.className = "relation-dot";
    dot.style.background = relationColor(reference.reference_type);
    const resolved = reference.status === "resolved";
    dot.title = `${reference.reference_type}: ${resolved ? reference.path : reference.target_ref}`;
    if (resolved) {
      dot.addEventListener("click", (event) => {
        event.stopPropagation();
        revealNode(reference.node_id).catch(reportError);
      });
    }
    relationsRow.appendChild(dot);
  }
  return relationsRow;
}

function renderLegend() {
  const legend = byId("legend");
  legend.replaceChildren();
  for (const name of state.relationTypes) {
    const item = document.createElement("li");
    const dot = document.createElement("span");
    dot.className = "relation-dot";
    dot.style.background = relationColor(name);
    item.append(dot, name);
    legend.appendChild(item);
  }
}

function applyPan() {
  const transform = `translate(${state.pan.x}px, ${state.pan.y}px)`;
  cards.style.transform = transform;
  links.style.transform = transform;
}

function setSelected(id) {
  state.selected = id;
  render();
  if (!byId("markdown").hidden) {
    showMarkdown().catch(reportError);
  }
}

function selectAndReveal(id) {
  setSelected(id);
  panIntoViewIfNeeded(id);
}

function panIntoViewIfNeeded(id) {
  const spot = state.layout.get(id);
  if (!spot) {
    return;
  }
  const half = ownExtent(spot.node);
  const left = spot.x + state.pan.x;
  const top = spot.y - half + state.pan.y;
  const right = left + CARD_WIDTH;
  const bottom = top + 2 * half;
  if (left < 0) {
    state.pan.x += SLOT_GAP - left;
  } else if (right > canvas.clientWidth) {
    state.pan.x -= right - canvas.clientWidth + SLOT_GAP;
  }
  if (top < 0) {
    state.pan.y += SLOT_GAP - top;
  } else if (bottom > canvas.clientHeight) {
    state.pan.y -= bottom - canvas.clientHeight + SLOT_GAP;
  }
  applyPan();
}

async function toggleExpand(id) {
  if (state.expanded.has(id)) {
    state.expanded.delete(id);
  } else {
    if (!state.nodes.has(id)) {
      await loadNode(id);
    }
    state.expanded.add(id);
  }
  render();
}

async function revealNode(id) {
  const { ancestor_ids: ancestors } = await getJson(nodePath(id, "/ancestors"));
  for (const ancestor of ancestors) {
    await loadNode(ancestor);
    state.expanded.add(ancestor);
  }
  selectAndReveal(id);
}

async function showMarkdown() {
  const { html } = await getJson(nodePath(state.selected, "/render"));
  byId("preview").innerHTML = html;
}

function toggleMarkdown() {
  const pane = byId("markdown");
  pane.hidden = !pane.hidden;
  if (!pane.hidden) {
    showMarkdown().catch(reportError);
  }
}

async function copySelectedPath() {
  const selectedId = state.selected;
  const path = summaryForNode(selectedId)?.path;
  if (!path) {
    return;
  }
  await navigator.clipboard.writeText(path);
  flashCopiedNode(selectedId);
}

function flashCopiedNode(id) {
  const card = cards.querySelector(`[data-id="${id}"]`);
  if (card) {
    card.classList.remove("path-copied");
    void card.offsetWidth;
    card.classList.add("path-copied");
  }
}

"##;

/// The script of the page, part 4 of 7.
pub const SCRIPT_4: &'static str = r##"async function openEditor() {
  const { markdown_content: text, version } = await getJson(nodePath(state.selected, "/source"));
  const form = byId("editor");
  byId("markdown").hidden = false;
  byId("preview").hidden = true;
  form.hidden = false;
  form.dataset.id = state.selected;
  form.dataset.version = String(version);
  byId("editor-text").value = text;
  byId("editor-text").focus();
}

function closeEditor() {
  byId("editor").hidden = true;
  byId("preview").hidden = false;
}

function sendCommand(command, payload, extra) {
  const workspace = state;
  workspace.pending.push({ command, ...extra });
  workspace.socket.send(JSON.stringify({ v: 1, type: "command", payload: { command, ...payload } }));
}

function requestCreateChild(parentId, title) {
  sendCommand("create_node", { parent: parentId, title }, { parentId });
}

function requestDeleteNode(id) {
  const summary = summaryForNode(id);
  if (summary && window.confirm(`Remove "${summary.title}" with everything below it?`)) {
    const parentId = state.parents.get(id);
    sendCommand("remove_node", { selector: id, expected_version: summary.version }, { parentId });
  }
}

function requestMove(id, parentId) {
  const summary = summaryForNode(id);
  const from = state.parents.get(id);
  sendCommand(
    "move_subtree",
    { selector: id, new_parent: parentId, expected_version: summary.version },
    { parentId, from },
  );
}

function noteSelfCausedChange() {
  const workspace = state;
  workspace.suppressNextChangeSweeps += 1;
}

function connect(workspace) {
  const scheme = location.protocol === "https:" ? "wss" : "ws";
  const query = `session=${encodeURIComponent(credential)}`;
  workspace.socket = new WebSocket(`${scheme}://${location.host}/api/ws/${workspace.id}?${query}`);
  workspace.socket.addEventListener("message", (event) => {
    handleMessage(workspace, JSON.parse(event.data)).catch(reportError);
  });
  workspace.socket.addEventListener("close", () => {
    if (workspace === state && !workspace.stopped) {
      window.setTimeout(() => connect(workspace), RECONNECT_MS);
    }
  });
}

async function handleMessage(workspace, message) {
  switch (message.type) {
    case "change":
      if (workspace.suppressNextChangeSweeps > 0) {
        workspace.suppressNextChangeSweeps -= 1;
        return;
      }
      for (const id of workspace.nodes.keys()) {
        workspace.stale.add(id);
      }
      render();
      return;
    case "ack":
      await acknowledge(workspace.pending.shift(), message);
      return;
    case "reject":
      workspace.pending.shift();
      reportError(message.payload.reason);
      return;
    case "shutdown":
      workspace.stopped = true;
      reportError("The server has stopped.");
      return;
    default:
      return;
  }
}

async function acknowledge(pending, message) {
  noteSelfCausedChange();
  if (!pending) {
    return;
  }
  if (pending.command === "create_node") {
    state.stale.add(pending.parentId);
    await loadNode(pending.parentId);
    state.expanded.add(pending.parentId);
    selectAndReveal(message.payload.node_id);
    return;
  }
  if (pending.command === "update_node") {
    closeEditor();
    await loadNode(pending.id);
    setSelected(pending.id);
    return;
  }
  if (pending.command === "remove_node") {
    state.selected = pending.parentId;
  }
  for (const id of [pending.parentId, pending.from]) {
    if (id) {
      await loadNode(id);
    }
  }
  render();
}

"##;

/// The script of the page, part 5 of 7.
pub const SCRIPT_5: &'static str = r##"function moveBetweenSiblings(step) {
  const parent = state.nodes.get(state.parents.get(state.selected));
  if (!parent) {
    return;
  }
  const siblings = parent.children;
  const nextIndex = siblings.findIndex((child) => child.id === state.selected) + step;
  if (nextIndex >= 0 && nextIndex < siblings.length) {
    selectAndReveal(siblings[nextIndex].id);
  }
}

function moveLeft() {
  const parentId = state.parents.get(state.selected);
  if (parentId) {
    selectAndReveal(parentId);
  }
}

function moveRight() {
  const current = state.selected;
  const node = state.nodes.get(current);
  if (node && state.expanded.has(current) && node.children.length > 0) {
    selectAndReveal(node.children[0].id);
  } else if (summaryForNode(current)?.children_count > 0) {
    toggleExpand(current).catch(reportError);
  }
}

document.addEventListener("keydown", (event) => {
  if (!state || event.target.closest("input, textarea, dialog")) {
    return;
  }
  if (event.ctrlKey || event.metaKey) {
    if (event.key === "c" && !String(window.getSelection())) {
      event.preventDefault();
      copySelectedPath().catch(reportError);
    }
    return;
  }
  if (event.key === "v" || event.key === "V") {
    toggleMarkdown();
  } else if (event.key === "c" || event.key === "C") {
    copySelectedPath().catch(reportError);
  } else if (event.key === "e" || event.key === "E") {
    openEditor().catch(reportError);
  } else if (event.key === "n" || event.key === "N") {
    const title = window.prompt("Title of the new child");
    if (title) {
      requestCreateChild(state.selected, title);
    }
  } else if (event.key === "Delete") {
    requestDeleteNode(state.selected);
  } else if (event.key === "/") {
    event.preventDefault();
    searchInput.focus();
  } else if (event.key === "ArrowUp") {
    moveBetweenSiblings(-1);
  } else if (event.key === "ArrowDown") {
    moveBetweenSiblings(1);
  } else if (event.key === "ArrowLeft") {
    moveLeft();
  } else if (event.key === "ArrowRight") {
    moveRight();
  } else if (event.key === " ") {
    event.preventDefault();
    toggleExpand(state.selected).catch(reportError);
  }
  if (event.key === "Enter") {
    event.preventDefault();
    toggleExpand(state.selected).catch(reportError);
  }
});

canvas.addEventListener("pointerdown", (event) => {
  if (event.target.closest("button, .relation-dot")) {
    return;
  }
  const card = event.target.closest(".node-card");
  press = {
    id: card ? card.dataset.id : null,
    x: event.clientX,
    y: event.clientY,
    pan: { ...state.pan },
    moved: false,
  };
  canvas.setPointerCapture(event.pointerId);
});

canvas.addEventListener("pointermove", (event) => {
  if (!press) {
    return;
  }
  const dx = event.clientX - press.x;
  const dy = event.clientY - press.y;
  press.moved = press.moved || Math.hypot(dx, dy) > DRAG_THRESHOLD;
  if (press.moved && !press.id) {
    canvas.classList.add("panning");
    state.pan = { x: press.pan.x + dx, y: press.pan.y + dy };
    applyPan();
  }
});

"##;

/// The script of the page, part 6 of 7.
pub const SCRIPT_6: &'static str = r##"canvas.addEventListener("pointerup", (event) => {
  const finished = press;
  press = null;
  canvas.classList.remove("panning");
  if (!finished || !finished.id) {
    return;
  }
  if (finished.moved) {
    const target = document
      .elementsFromPoint(event.clientX, event.clientY)
      .map((element) => element.closest(".node-card"))
      .find((card) => card && card.dataset.id !== finished.id);
    if (target) {
      requestMove(finished.id, target.dataset.id);
    }
    return;
  }
  const now = event.timeStamp;
  const again =
    lastCardClick && lastCardClick.id === finished.id && now - lastCardClick.time <= DOUBLE_CLICK_MS;
  setSelected(finished.id);
  if (again) {
    lastCardClick = null;
    toggleExpand(finished.id).catch(reportError);
  } else {
    lastCardClick = { id: finished.id, time: now };
  }
});

function getSearchResultItems() {
  return [...searchResults.querySelectorAll(".search-result-item")];
}

function applySearchHighlight(index) {
  highlightedResultIndex = index;
  getSearchResultItems().forEach((item, position) => {
    item.classList.toggle("highlighted", position === index);
  });
}

function moveSearchHighlight(step) {
  const count = getSearchResultItems().length;
  if (count > 0) {
    applySearchHighlight((highlightedResultIndex + step + count) % count);
  }
}

function hideSearch() {
  searchResults.hidden = true;
  searchResults.replaceChildren();
  highlightedResultIndex = -1;
}

async function runSearch() {
  const query = searchInput.value;
  if (!query.trim()) {
    hideSearch();
    return;
  }
  const { matches } = await getJson(`/api/search?q=${encodeURIComponent(query)}`);
  searchResults.replaceChildren();
  for (const match of matches) {
    const item = document.createElement("li");
    item.className = "search-result-item";
    const where = document.createElement("small");
    where.textContent = `${match.workspace_name}: ${match.path}`;
    item.append(match.title, where);
    item.addEventListener("click", () => {
      hideSearch();
      openWorkspace(workspaces[match.workspace_id])
        .then(() => revealNode(match.node_id))
        .catch(reportError);
    });
    searchResults.appendChild(item);
  }
  searchResults.hidden = false;
  applySearchHighlight(matches.length > 0 ? 0 : -1);
}

searchInput.addEventListener("input", () => {
  window.clearTimeout(searchTimer);
  searchTimer = window.setTimeout(() => runSearch().catch(reportError), 150);
});

searchInput.addEventListener("keydown", (event) => {
  if (event.key === "Escape") {
    hideSearch();
    searchInput.blur();
  } else if (event.key === "ArrowDown") {
    event.preventDefault();
    moveSearchHighlight(1);
  } else if (event.key === "ArrowUp") {
    event.preventDefault();
    moveSearchHighlight(-1);
  } else if (event.key === "Enter") {
    getSearchResultItems()[highlightedResultIndex]?.click();
  }
});

byId("editor").addEventListener("submit", (event) => {
  event.preventDefault();
  const form = byId("editor");
  sendCommand(
    "update_node",
    {
      selector: form.dataset.id,
      content: byId("editor-text").value,
      expected_version: Number(form.dataset.version),
    },
    { id: form.dataset.id },
  );
});

"##;

/// The script of the page, part 7 of 7.
pub const SCRIPT_7: &'static str = r##"byId("editor-cancel").addEventListener("click", closeEditor);
byId("help").addEventListener("click", () => byId("shortcuts").showModal());
byId("stop").addEventListener("click", () => {
  fetch("/api/stop", { method: "POST", headers: { "x-mdtree-session": credential } }).catch(reportError);
});

async function openWorkspace(workspace) {
  if (state !== workspace) {
    const previous = state;
    state = workspace;
    if (previous && previous.socket) {
      previous.socket.close();
    }
    connect(workspace);
    renderSwitcher();
  }
  if (!workspace.nodes.has(workspace.root)) {
    await loadNode(workspace.root);
    workspace.expanded.add(workspace.root);
  }
  render();
}

function renderSwitcher() {
  const panel = byId("workspaces");
  panel.replaceChildren();
  for (const workspace of workspaces) {
    const button = document.createElement("button");
    button.textContent = workspace.name;
    button.classList.toggle("active", workspace === state);
    button.addEventListener("click", () => openWorkspace(workspace).catch(reportError));
    panel.appendChild(button);
  }
}

async function start() {
  const session = await getJson("/api/workspaces");
  credential = session.session_credential;
  byId("server-version").textContent = session.server_version;
  workspaces = session.workspaces.map(newWorkspace);
  renderSwitcher();
  if (workspaces.length > 0) {
    await openWorkspace(workspaces[0]);
  }
}

start().catch(reportError);
"##;

/// The style sheet of the page.
pub const STYLE: &'static str = r##"*{box-sizing:border-box}
html,body{height:100%;margin:0}
body{display:flex;flex-direction:column;font:14px/1.4 system-ui,sans-serif;color:#1c2430;background:#f5f6f8}
header{position:relative;display:flex;align-items:center;gap:1rem;padding:.5rem 1rem;background:#fff;border-bottom:1px solid #d8dde5}
header h1{margin:0;font-size:1.1rem}
header small{font-weight:400;color:#6b7686}
#search{flex:1;max-width:32rem;padding:.35rem .6rem;border:1px solid #c4ccd8;border-radius:.4rem}
#search-results{position:absolute;top:100%;left:8rem;z-index:5;width:34rem;max-height:60vh;margin:0;padding:.25rem;overflow:auto;list-style:none;background:#fff;border:1px solid #c4ccd8;border-radius:.4rem}
.search-result-item{padding:.3rem .5rem;border-radius:.3rem;cursor:pointer}
.search-result-item small{display:block;color:#6b7686}
.search-result-item:hover,.search-result-item.highlighted{background:#e4edfb}
main{display:flex;flex:1;min-height:0}
#workspaces{width:12rem;padding:.5rem;overflow:auto;background:#fff;border-right:1px solid #d8dde5}
#workspaces button{display:block;width:100%;margin-bottom:.25rem;padding:.3rem .5rem;text-align:left;background:none;border:0;border-radius:.3rem;cursor:pointer}
#workspaces button.active{background:#e4edfb}
#canvas{position:relative;flex:1;overflow:hidden;cursor:grab;touch-action:none}
#canvas.panning{cursor:grabbing}
#cards,#links{position:absolute;top:0;left:0;overflow:visible}
#links path{fill:none;stroke:#b6c0ce;stroke-width:1.5}
.node-card{position:absolute;width:220px;padding:.4rem .6rem;background:#fff;border:1px solid #c4ccd8;border-radius:.5rem;cursor:default;user-select:none}
.node-card.selected{border-color:#2f6fdb;box-shadow:0 0 0 2px #bcd3f8}
.node-card.stale{border-style:dashed}
.node-card h2{margin:0;font-size:.95rem;overflow:hidden;text-overflow:ellipsis;white-space:nowrap}
.node-card small{color:#6b7686}
.node-card-actions{position:absolute;top:.2rem;right:.2rem;display:flex;gap:.2rem}
.node-card-actions button{padding:0 .3rem;background:#f5f6f8;border:1px solid #d8dde5;border-radius:.3rem;cursor:pointer}
.node-card-reload{visibility:hidden}
.node-card.stale .node-card-reload,.node-card:hover .node-card-reload{visibility:visible}
.node-card.path-copied:after{content:"Path copied";position:absolute;left:.6rem;bottom:-1.3rem;font-size:.75rem;color:#2f6fdb;animation:node-path-copied 1.2s ease-out forwards}
@keyframes node-path-copied{from{opacity:1}to{opacity:0}}
.flex{display:flex}
.flex-wrap{flex-wrap:wrap}
.items-center{align-items:center}
.gap-1\.5{gap:6px}
.relation-dot{width:8px;height:8px;border-radius:50%;cursor:pointer}
#legend{position:absolute;left:.5rem;bottom:.5rem;margin:0;padding:.3rem .6rem;list-style:none;background:#ffffffd0;border-radius:.4rem}
#legend .relation-dot{display:inline-block;margin-right:.4rem}
#markdown{width:38%;padding:1rem;overflow:auto;background:#fff;border-left:1px solid #d8dde5}
#markdown img{max-width:100%}
#markdown mark{background:#fff2a8}
#editor{display:flex;flex-direction:column;gap:.5rem;height:100%}
#editor[hidden]{display:none}
#editor-text{flex:1;font:13px/1.5 ui-monospace,monospace}
#status{position:fixed;right:1rem;bottom:.5rem;margin:0;color:#a33}
"##;

/// A file of the front end with its media type.
#[derive(Debug)]
pub struct Asset {
    pub content_type: &'static str,
    pub body: String,
}

/// The page.
pub fn index() -> (asset: Asset)
    ensures
        asset.content_type@ == "text/html; charset=utf-8"@,
        asset.body@ == PAGE@,
{
    Asset { content_type: "text/html; charset=utf-8", body: PAGE.to_owned() }
}

/// The script of the page.
pub fn app_js() -> (asset: Asset)
    ensures
        asset.content_type@ == "text/javascript; charset=utf-8"@,
        asset.body@ == SCRIPT_1@ + SCRIPT_2@ + SCRIPT_3@ + SCRIPT_4@ + SCRIPT_5@ + SCRIPT_6@ + SCRIPT_7@,
{
    let mut body = SCRIPT_1.to_owned();
    body.push_str(SCRIPT_2);
    body.push_str(SCRIPT_3);
    body.push_str(SCRIPT_4);
    body.push_str(SCRIPT_5);
    body.push_str(SCRIPT_6);
    body.push_str(SCRIPT_7);
    Asset { content_type: "text/javascript; charset=utf-8", body }
}

/// The style sheet of the page.
pub fn style_css() -> (asset: Asset)
    ensures
        asset.content_type@ == "text/css; charset=utf-8"@,
        asset.body@ == STYLE@,
{
    Asset { content_type: "text/css; charset=utf-8", body: STYLE.to_owned() }
}

} // verus!
