# cloudscraper_rs

Detection of Cloudflare challenges and the decisions around answering them, as a
verified Verus library.

- `detectors` scores a response against built-in and discovered patterns, learns
  from outcomes and keeps a history; `detector_laws` states what holds of it as a
  whole.
- `user_agents` selects browser profiles from a dataset; `user_agent_laws` states
  what holds of them.
- `timing` computes delays that follow the outcome of earlier attempts.
- `browser` decides how a headless browser is run until a challenge is cleared.
- `solvers` holds the interfaces of solvers and the plans they give.
- `ieee` and `rounding` are single- and double-precision numbers in integer
  arithmetic, in which confidences and delays are computed.
- `text`, `text_map`, `web_url`, `pattern_search` and `random` are what these
  stand on. The last three reach the crates `url`, `regex` and `rand`.

`app/` is ordinary Rust around the library: reading and parsing the dataset, the
asynchronous solver interface, and driving headless Chrome. The dataset
that app/ embeds is a small one written for this project; a larger one can be
supplied on disk.
