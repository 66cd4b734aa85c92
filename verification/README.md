# Sheaf core

The decisions of Sheaf, an open-source PDF reader and editor, written in Verus
and proved against their contracts.

- `src/` is the verified library (crate `sheaf`):
  - `engine`: the undo history of an open document, XFDF form data, annotation
    kinds and colours, page rotation and deletion, stamps, search context;
  - `xfdf`: the proof that importing an exported form gives its values back;
  - `forms`: field types and flags, and how a new value is applied to a widget;
  - `edit`, `tools`: text export, page objects and links; word and pixel
    comparison of two documents, and the accessibility report;
  - `security`: identities and their listing, PKCS#12 import, appending a
    signature as an incremental update and signing it in place, the walk of
    the AcroForm that finds every signature and checks it, AES-256
    protection and its removal, PDF dates, permissions;
  - `windows_install`, `macos_uninstall`, `desktop_integration`, `local_data`:
    which installation a running copy belongs to and which paths may be
    written or removed;
  - `text`, `paths`, `error`: shared text models, and paths read by Unix or
    Windows rules.
- `tests/` runs the library on concrete values.
- `app/` is the unverified side: the PDFium engine thread, floating-point
  geometry (signature rectangles and appearances among it), file system and
  process access, and the serde-facing copies of the library's types.

Calls into outside crates (`base64`, `sha2`, `p12-keystore`, `pdf_oxide`,
`x509-parser`, `similar`, `image`, `lopdf`) stand behind small trusted
wrappers whose contracts say what the crate's source shows.
