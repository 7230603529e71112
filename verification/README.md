# LanQR / 邻享码

LanQR shares one file or one folder on the local network behind a QR code:
a small built-in HTTP server answers on a random port under a secret route
(`http://<ip>:<port>/send/<token>`, with a trailing `/` for a folder), and the
window shows the address, its QR code and the state of the share.

The project is written in Verus. The library under `src/` holds the logic and
states it in contracts that Verus proves:

- `text`, `http`, `paths`, `range`: character and byte helpers, percent
  encoding and decoding, HTML escaping, content types and dispositions, the
  request line, response heads, the folder-relative path rules and the
  `Range` header of downloads;
- `share_service`: the route and address of a share, the service's lifecycle
  and the plan of the answer to each request;
- `listing`, `sorting`: the folder page and the stable order of its entries;
- `network`: ranking of the machine's IPv4 addresses and the random port
  search;
- `i18n`, `app_state`, `launch`, `context_menu`, `qr`, `errors`, `models`,
  `logging`: texts in Chinese and English, the window's state, the command
  line, the Explorer menu's registry commands, the QR image and the shared
  data types.

`app/` is the program around it: the window (`eframe`), sockets and threads,
the file system, the registry tool, logging and the clipboard. `tests/` runs
the library on concrete values.
