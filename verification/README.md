# certik

An HTTP(S) certificate manager. It runs in the terminal and can serve what it holds over an HTTPS
API.

- Load a leaf certificate, intermediates and a private key from PEM or DER files into a certificate
  set, and look at any such file.
- A set with certificate and key is verified: chain of signatures, key match, validity windows.
- `GET /certificate`, `/intermediate` and `/key` serve the set whose window has the focus, as PEM
  or, with `?format=text`, as text. `GET /ping` answers `pong`.

## Layout

`src/` is the library. All of it is verified with Verus: parsing of files and arguments, reports,
chain building and verification, the answers of the API, the contents and places of windows, and
the two games behind the Help menu. What OpenSSL, chrono, rcgen, rustls-pemfile, rand and the
screen buffers of turbo-vision do is stated in the contracts of small wrappers, mostly by naming
their results.

`app/` is the program around the library: sockets, files, the terminal and the main loop.

`tests/` runs the library together with these crates.

## Running

    certik [--api-bind <IP>] [--api-port <PORT>] [--tls-cert <FILE> --tls-key <FILE>]
           [--cert <FILE>] [--key <FILE>] [--no-api]

The API listens on port 24489. Without a TLS certificate of its own it makes one at startup.
