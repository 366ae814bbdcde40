# keypad

Generates a passcode-locked keypad out of plain HTML and CSS: every digit
entered follows a link to a hidden anchor, the keypad behind that anchor is
shown with `:target` selectors, and the style sheet reveals a hidden secret
once the anchor of the passcode itself is the target.

The library under `src/` is verified with Verus:

- `keypad` — passcodes, themes, the theme table, and the generated markup and
  style sheet, each stated exactly over `Seq<char>`;
- `navigation` — the properties a visitor relies on: every digit sequence up
  to the passcode's length has its anchor followed by the keypad that
  continues from it, each anchor's `id` occurs exactly once, and the style
  sheet keys the secret on the passcode's anchor;
- `ao3_css_transform`, `ao3_html_transform` — rewriting a style sheet and a
  page for AO3 (the regular expressions are run by the `regex` crate,
  through `regex_ops`); rewriting twice is rewriting once, and two sheets
  one after the other are rewritten each on its own;
- `pages` — the preview page and the self-contained page;
- `text` — trimming, replacing, splitting and decimal formatting.

`app/` holds the command-line programs, TOML theme loading and the browser
bindings.
