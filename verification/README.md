# mempe

mempe dumps Windows executables and DLLs from a running process and rebuilds each captured
image into a file that regular PE tools can parse.

The library under `src/` is verified with Verus. It holds everything that decides or computes;
the program under `app/` talks to the system and hands the library plain values.

- `src/pe/` – PE images. `parse` finds headers, `exports` indexes what modules export, `imports`
  recovers imports, `carve` finds images inside images, and `rebuild` turns a captured image back
  into a file.
- `src/memory/` – the memory of a process: its regions, which images and allocations are captured
  and what is read of each, the search for hidden images, sampling for stability, and names.
- `src/order.rs`, `src/text.rs`, `src/error.rs` – ordered sets of addresses, text, errors.

Contracts speak of spec functions over sequences of bytes. What holds of several functions
together is stated by the public proof functions whose names start with `law_`.

Three calls are trusted rather than proved: the independent parse of a rebuilt file with `pelite`,
making room in a vector, and turning bytes into text. Each says above its body what is claimed.

Entropy is a floating-point number: the library counts bytes, and `app/entropy.rs` does the rest.
