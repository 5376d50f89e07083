# Browser Switcher

A Windows tray utility that lists the installed web browsers and opens the Windows
Settings page where one of them can be made the default browser.

- `src/` is the verified library (Verus):
  - `text` — trimming, ASCII case folding, searching and ordering of character sequences;
  - `browser` — the browser registration model, merging of duplicate registrations,
    matching the default browser and menu labels;
  - `registry` — what discovery decides from the values read out of the registry
    (which registrations are browsers, names, executable and icon paths, protocol ids,
    packaged registrations, the default browser's protocol id);
  - `settings` — the `ms-settings:` links, with percent-encoding of the registry id;
  - `icons` — where a menu icon is looked for, pixel reordering, UTF-16 text for Windows;
  - `tray` — the menu's items and ids, menu commands, tray clicks.
- `app/` is the Tauri program around it: registry access, icon loading, shell calls and the
  tray itself. It expects the Tauri bundle's assets (`tauri.conf.json`, `icons/`) next to it.
- `tests/` runs the library on concrete values.
