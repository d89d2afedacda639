# flexui

The verified core of a flexbox UI toolkit: a reactive runtime, the node tree
of the UI, style sheets, and the compiler that turns component templates
into Rust code that builds the UI.

The code under `src/` is verified by Verus. The calls it makes into std,
`syn`/`quote` and the closures a user hands in go through a small number of
trusted wrappers (marked `external_body`); their contracts state what the
called code does, and are not themselves proved.

| module | what it holds |
| --- | --- |
| `signals` | signals, effects, memos and scopes over an explicit runtime |
| `ui` | the element builder, keyed-list and conditional-block plans |
| `tree` | the node tree: linked child lists and a free list of slots |
| `style` | style values, style sheets, cascade resolution, text transforms |
| `events` | input editing, click bubbling and hover tracking |
| `css` | the CSS parser, with shorthand expansion |
| `parser` | the template parser (`<script>`, `<style>`, `<template>`) |
| `template` | template nodes and the slot helpers of the compiler |
| `codegen` | what the compiler generates for each element and attribute |
| `serialize` | the binary encoding of style properties for the engine |
| `propmap` | a string-keyed map that keeps insertion order |
| `text` | string helpers (trimming, words, white space) |

`app/` is the compiler program: argument handling, file I/O and the token
rendering with `quote`, on top of the library.

## What effect bodies can do

An effect body, a memo's function and a root's body reach the runtime only
through the `Host` trait: they read, write and create signals, open, leave
and dispose scopes and register cleanups. They cannot create effects,
memos or roots of their own, so a body cannot mount a nested reactive
block; such blocks are created from the top, on the `Runtime` itself. This
is what lets the contracts state that a run keeps the effect ids and only
extends the logs (`keeps`).

## The node tree and its free list

The tree operations that link a node (`set_parent`, `insert_after_node`)
ask that both nodes be live, not on the free list: a free slot is detached
by construction and is handed out again by `add_node`, so linking one
would leave a node in a parent's list that the next allocation reuses as a
fresh, detached node.
