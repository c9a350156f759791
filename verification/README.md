# tdx_measure

Computes the measurement registers that an Intel TDX guest reports (MRTD and
RTMR0 to RTMR2) from the firmware image, the ACPI tables, the UEFI boot
variables and the kernel or disk image the guest boots. The computation is
verified with Verus: every public function states what it returns in terms of
specification functions. Properties that span several calls or inputs (the
table loader depends only on the table listing, accepting memory keeps the
map contiguous, direct boot ignores the boot variables, the Authenticode
digest skips the checksum field) are public proof functions; each states in
its `requires` the inputs on which it holds.

## Layout

- `src/` — the verified library.
  - `tdvf.rs`: the TDVF metadata of the firmware, MRTD, the TD HOB, the CFV and RTMR0.
  - `memory.rs`: the memory ranges the firmware accepts before the TD HOB is built.
  - `acpi.rs`: listing ACPI tables, the derived RSDP and QEMU table loader, and the
    QEMU command line that dumps the tables.
  - `kernel.rs`, `pe.rs`: the kernel as QEMU patches it, its Authenticode digest,
    and RTMR1/RTMR2 of direct boot.
  - `image.rs`: the GPT event data, the kernel version on the command line, and
    RTMR1/RTMR2 of indirect boot.
  - `efi.rs`, `text.rs`, `bytes.rs`, `digest.rs`: GUIDs, UEFI variable events,
    UTF-16, little-endian fields, SHA-384 and the register extend operation.
  - `config.rs`, `paths.rs`, `machine.rs`, `error.rs`: the metadata, its paths resolved,
    the machine and its platform and runtime measurements, and errors.
- `app/` — the command-line tool: argument parsing, JSON, file and disk-image
  reading, and the Docker run that dumps ACPI tables.
- `tests/` — tests of the library on concrete values.

SHA-384 is computed by the `sha2` crate, hexadecimal decoding by the `hex`
crate, and paths are joined by `std::path`; the library names the results it
cannot state in a few lines, and its contracts are stated over those names.
