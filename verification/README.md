# wallbash

A fast and minimal wallpaper engine for HyDE: a Wayland layer-shell
wallpaper daemon rendered with Vulkan, with a client that sets wallpapers,
cycles through a folder, and generates a Material color palette from the
wallpaper that is deployed through user templates.

## Layout

- `src/` is the verified library. Every function in it carries a contract
  that Verus proves, except two small trusted functions that each make one
  call into std and whose contracts Verus believes: `text::string_from_chars`
  (building a `String` from characters) and `gpu::word_from_ne`
  (`u32::from_ne_bytes`). The library's modules:
  - `text`, `literal`: character-level text handling, and the number syntax
    that the command protocol and the state file accept;
  - `ipc`: the scaling and palette modes and the `set`/`stop` command
    protocol between client and daemon;
  - `dispatch`: how the daemon handles the commands that queue up (a run of
    `set` commands collapses into the newest one, and a `stop` still ends
    the daemon);
  - `state`, `cli`, `folder`: the client's remembered state file, its
    command line, and cycling through the wallpaper's folder;
  - `colors`, `template`: the integer side of palette generation and the
    palette templates (`*.t2`);
  - `gpu`, `transition`, `outputs`, `cache`: the decisions taken on the
    values the Vulkan driver and the Wayland compositor report, the
    transition bookkeeping, and the daemon's cache of decoded images.
- `tests/` exercises the library on concrete values.
- `app/` is the program around it: argument handling, sockets and files,
  Wayland and Vulkan calls, and the floating-point color science, easing
  curves and scaling geometry.

## Shaders

The daemon reads its compiled compute shaders (`blur.comp.spv`,
`zoom.comp.spv`) at start-up from `$WALLBASH_SHADERS`, or from `shaders/`
next to the executable.
