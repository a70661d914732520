# atrium

Atrium is the Peios web session host: a browser logs on through a login
page, and gets a shell — the chrome the user lives in — served by a session
host that runs as the user. Three programs share the work:

- `atriumd`, the one privileged process: it starts the server under a token
  with every privilege deleted, holds logon conversations with the authority
  on the server's behalf, keeps the resulting tokens, and submits one
  session host per logon to the service manager;
- `atrium-server`, the network-facing half: the login page, the logon API,
  and the routing view cookie -> session;
- `atrium-session`, one interactive session as the user: the shell, the app
  catalogue, and the session's state, which every open shell mirrors over a
  websocket.

## Layout

- `src/` is the library, verified with Verus: what the programs decide
  and compute, each with its contract.
  - `proto` — the control protocols and their length-prefixed framing;
  - `http` — reading a request from the bytes of a connection, rewriting a
    head for forwarding, rendering a response;
  - `ws` — the websocket handshake and frames;
  - `server` — cookie jar, request routing, logon answers, pages;
  - `logon` — the logon conversations and session table;
  - `jobs`, `spawn` — what the service manager is asked and what its
    answers mean, how the server child ended;
  - `state`, `host`, `apps` — the session's windows and focus, the session
    host's routes, the app catalogue;
  - `log`, `text` — log lines, and the string and number helpers the rest
    is written with.
- `app/` is the operating-system side of the three programs (one binary,
  chosen by the name it runs as): sockets, descriptor passing, files,
  processes, threads, JSON. It hands the library plain values and carries
  out what the library decides.
- `tests/` runs the library on concrete values.
