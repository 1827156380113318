# Notepad Classic

A small Windows text editor built on the raw Win32 API. Its logic lives in a
library that is verified with Verus; the Win32 program around it is in `app/`.

## Layout

- `src/` — the verified library:
  - `search.rs`: Find, Find Next/Previous, Replace and Replace All over UTF-16
    text, with case and whole-word options.
  - `printing.rs`: splitting text into lines, tab expansion, word wrapping,
    pagination and page geometry for printing; `printing/modern.rs`: page
    range selection, one print session per window, and which failures fall
    back to the classic print dialog.
  - `localization.rs`: numbered-placeholder message formatting and reading
    the embedded string tables.
  - `editor.rs`: zoom, mouse-wheel steps, font heights, the status bar's
    parts, menu states, `.LOG` time stamps.
  - `dialogs.rs`: file filters, About-box links, DPI scaling, Go To Line
    input, save prompts.
  - `window_placement.rs`: storing the window placement in registry DWORDs.
  - `text_format.rs`: byte-order marks and line-break detection.
- `tests/` — tests of the library.
- `app/` — the Windows program: windows, dialogs, registry, files, printing
  through GDI and the system print dialog.
