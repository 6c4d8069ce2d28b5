# prompt history compat

Normalizes the outbound copy of a conversation before it is sent to a
Responses-compatible model service, so that providers with a stricter notion of
a well-formed request accept it. The persisted history is never modified: every
pass takes the copy by value and returns a new one.

Layout of `src/`:

- `items.rs`: conversation items and their mathematical models (views).
- `prompt_copy.rs`: the two kinds of prompt-copy entry (bare item, item with
  harness metadata) behind one trait.
- `text.rs`: byte-level string predicates (ASCII-case-insensitive equality,
  substring search, equality).
- `notices.rs`: detection of image resize notices and their folding into the
  item they follow.
- `relocate.rs`: moving message runs that interrupt a call and its output.
- `pairing.rs`: stand-in outputs for dangling calls, removal of orphan outputs.
- `sanitize.rs`: the whole pipeline, per provider.
- `laws.rs`: properties that hold of every copy the passes produce.

Every executable function carries a contract over the models, and Verus proves
it; the laws are proof functions.
