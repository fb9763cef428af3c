# acumen

The verified core of a group-chat bot: what it computes once the records are
read and before anything is drawn or sent.

- `src/` is the library, checked by Verus. Every public function states in
  its `ensures` what it returns; the laws that relate several functions are
  public proof functions named `lemma_*`.
  - `text` — character-level string helpers with their specifications.
  - `divine`, `models`, `persona` — the hexagram cast, the MBTI and
    Enneagram readings, and the persona a model returns, with the rules that
    clean it up.
  - `collect`, `style` — sampling a person's messages, counting their style,
    and the ties to the people they talk with.
  - `state`, `recall` — the small state machines behind video previews and
    follow-up recalls.
  - `link`, `bilibili`, `webshot` — reading links, video references, the
    quality plan, and which pages may be captured.
  - `chart`, `cloud`, `card`, `settings`, `commands` — chart data and layout,
    word-cloud words, report fragments, settings and command parsing.
- `tests/` runs the library on concrete cases.
- `app/` holds what needs serde, floating point or the local clock: parsing
  the model's JSON, the style rates, the fallback persona and the prompt.
