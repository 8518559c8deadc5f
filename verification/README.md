# auth_guard

Two guards of an authentication server, verified with Verus.

- `ratelimit`: a token bucket per source address for the unauthenticated
  authentication endpoints. Sources that have refilled are forgotten again.
- `jpg`: checks of uploaded JPEG images: the magic bytes, a trailer behind the end
  of the image, and the dimensions in the header.

Token counts are IEEE 754 binary64 numbers, so that partial refills accumulate.
Their arithmetic is done on the representations, in integers: `binary64` says what
a representation stands for and what it means to round to the nearest one, and
`arithmetic` computes sums, products and quotients that are proved to be rounded
that way.

What the guards promise as a whole stands in modules of its own:

- `ratelimit_laws`: a burst can be spent and then the source is throttled, sources do
  not affect one another, forgetting a source cannot be observed.
- `ratelimit_accuracy`: a refill is the exact one up to rounding, so that partial
  refills accumulate.
- `ratelimit_throughput`: in any time span a source is granted no more than the burst
  and what the rate gives, up to rounding.
- `ratelimit_table`: the table does not grow with every address ever seen.
- `jpg_laws`: bytes put behind an image are found.

The header of an image is read by the `image` crate; `jpg::read_header_within` is
the one function whose contract is believed rather than proved.

`app/` is the HTTP layer around the limiter, with clock, lock and requests, and what
the checks log.
