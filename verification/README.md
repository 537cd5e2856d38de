# libubox

Building, walking and decoding OpenWrt libubox `blob` and `blobmsg` buffers,
with contracts proved by Verus.

- `src/blob/attr.rs`: the attribute header (7-bit id, extended flag, 24-bit
  length, big-endian), padding, `BlobAttr` and the walk over consecutive
  attributes (`BlobIter`), and the read-back laws for encoded attributes.
- `src/blob.rs`: `BlobBuf`, modelled as the stack of open containers; adding
  attributes, nesting, and the laws on building and reading back.
- `src/blobmsg.rs`: typed fields with a name header, `BlobmsgBuf`,
  `BlobmsgAttr`, the policy-driven `BlobmsgParser`, and the typed round trips.
- `src/json.rs`: JSON rendering of blobmsg attributes.
- `src/endian.rs`: big-endian integer encodings.
- `src/uloop.rs`: the guard for the process-wide event loop: claiming and
  clearing the process-wide flag around setting the loop up, and its laws.
- `app/`: the event loop's C calls and atomic flag, JSON parsing through
  libblobmsg_json (`add_json_str`), floating-point helpers, error messages and
  the host-status example.
