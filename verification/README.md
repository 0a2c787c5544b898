# plutonium_engine (verified core)

The decision-making parts of the Plutonium 2D engine, written in Verus and proved against
their contracts:

- `rng`: seedable SplitMix64 / xorshift64* streams, FNV-1a named streams, Fisher-Yates shuffle.
- `popup`: the modal popup runtime (open, replace, close, per-frame pointer/Escape/timeout
  handling, object cleanup), the message-height estimate and the popup font choice;
  `popup_wrap`: wrapping a popup message, splitting words too long for a line.
- `pluto_objects`: UTF-8 text editing by byte position, the text-input key and mouse handling,
  greedy word wrapping driven by a "does it fit" oracle, button focus/click handling.
- `input` and `app`: action bindings, logical keys, held keys, app hotkeys, window defaults.
- `font_raster`: glyph sets, choosing a loaded raster variant, variant keys, prewarm planning
  and the per-frame warm queue under per-family glyph budgets.
- `render_plan`: the frame's draw plan: the render queue in z order (ties in submission
  order), consecutive items of one texture, atlas and shader, or primitive grouped into one
  instanced draw, and a scissor change whenever the effective clip changes.
- `instance_pool`: reuse and eviction of per-frame instance buffers.
- `error` and `text`: the engine's error types and their messages.

`app/` holds what cannot be verified here: winit key conversion, floating-point geometry and
timing (popup layout, key repeat, font-size quantization, axis values), the frame driver that
runs the GPU calls of a draw plan through the instance pools, and the loops that feed
measurements and loads into the verified state machines.
